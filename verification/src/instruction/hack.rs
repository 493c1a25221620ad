//! The interface an instruction offers to the binary backend.

use vstd::prelude::*;

use crate::instruction::Instruction;

verus! {

/// Something that can render itself as one line of Hack machine code.
pub trait Hackable {
    fn to_hack(self) -> Result<String, String>;
}

impl Hackable for Instruction {
    fn to_hack(self) -> (r: Result<String, String>)
        ensures
            match r {
                Result::Ok(s) => crate::instruction::encode_model(self@) == Result::Ok::<
                    Seq<char>,
                    Seq<char>,
                >(s@),
                Result::Err(e) => crate::instruction::encode_model(self@) == Result::Err::<
                    Seq<char>,
                    Seq<char>,
                >(e@),
            },
    {
        Instruction::to_hack(self)
    }
}

} // verus!
