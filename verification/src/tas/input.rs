//! Input ports: how one frame of controller input is laid out in bytes.

use vstd::prelude::*;

verus! {

/// The joypads that can be plugged into a port.
#[derive(Clone, Copy, Debug, PartialEq, Eq, Structural)]
pub enum Joypad {
    /// Twelve buttons, one bit each, in two bytes.
    Snes,
}

/// What is plugged into the emulated machine's controller port.
#[derive(Clone, Copy, Debug, PartialEq, Eq, Structural)]
pub enum InputPort {
    Joypad(Joypad),
}

impl Joypad {
    /// Number of bytes that one frame of this joypad's input takes.
    pub open spec fn spec_frame_size(&self) -> usize {
        2
    }

    #[verifier::when_used_as_spec(spec_frame_size)]
    pub fn frame_size(&self) -> (size: usize)
        ensures
            size == self.spec_frame_size(),
            size > 0,
    {
        2
    }
}

impl InputPort {
    /// The record of a frame on which nothing is pressed: all bytes zero.
    pub open spec fn spec_default_record(&self) -> Seq<u8> {
        Seq::new(self.spec_frame_size() as nat, |i: int| 0u8)
    }

    /// The record of a frame on which nothing is pressed.
    pub fn default_record(&self) -> (record: Vec<u8>)
        ensures
            record@ == self.spec_default_record(),
            record@.len() == self.spec_frame_size(),
    {
        let size = self.frame_size();
        let mut record: Vec<u8> = Vec::new();
        while record.len() < size
            invariant
                size == self.spec_frame_size(),
                record@.len() <= size,
                forall|i: int| 0 <= i < record@.len() ==> record@[i] == 0u8,
            decreases size - record@.len(),
        {
            record.push(0u8);
        }
        assert(record@ =~= self.spec_default_record());
        record
    }

    /// Number of bytes that one frame of input takes on this port.
    pub open spec fn spec_frame_size(&self) -> usize {
        match *self {
            InputPort::Joypad(j) => j.spec_frame_size(),
        }
    }

    #[verifier::when_used_as_spec(spec_frame_size)]
    pub fn frame_size(&self) -> (size: usize)
        ensures
            size == self.spec_frame_size(),
            0 < size <= 2,
    {
        match self {
            InputPort::Joypad(j) => j.frame_size(),
        }
    }
}

} // verus!
