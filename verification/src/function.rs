//! Analysis artifacts that attach to the address-space models: function
//! records and jump tables. The analyses that produce them are outside
//! this crate; here they are plain data.

use vstd::prelude::*;

verus! {

/// A function found by analysis: a named address in ARM or Thumb mode.
#[derive(Clone, Debug)]
pub struct Function {
    pub name: String,
    pub start_address: u32,
    pub thumb: bool,
}

impl Function {
    pub fn new(name: String, start_address: u32, thumb: bool) -> (r: Function)
        ensures
            r.name == name,
            r.start_address == start_address,
            r.thumb == thumb,
    {
        Function { name, start_address, thumb }
    }

    pub fn name(&self) -> (r: &String)
        ensures
            r == &self.name,
    {
        &self.name
    }

    pub fn start_address(&self) -> (r: u32)
        ensures
            r == self.start_address,
    {
        self.start_address
    }

    /// The address of the first instruction, which for this model is the
    /// start address.
    pub fn first_instruction_address(&self) -> (r: u32)
        ensures
            r == self.start_address,
    {
        self.start_address
    }

    pub fn is_thumb(&self) -> (r: bool)
        ensures
            r == self.thumb,
    {
        self.thumb
    }

    /// A field-wise copy, equal to the original.
    pub fn duplicate(&self) -> (r: Function)
        ensures
            r == *self,
    {
        Function {
            name: self.name.clone(),
            start_address: self.start_address,
            thumb: self.thumb,
        }
    }
}

/// A jump table found by analysis: its address, its byte size, and whether
/// its entries are instructions rather than data.
#[derive(Clone, Copy, Debug)]
pub struct JumpTable {
    pub address: u32,
    pub size: u32,
    pub code: bool,
}

impl JumpTable {
    pub fn new(address: u32, size: u32, code: bool) -> (r: JumpTable)
        ensures
            r.address == address,
            r.size == size,
            r.code == code,
    {
        JumpTable { address, size, code }
    }
}

} // verus!
