use vstd::prelude::*;

verus! {

/// The text that could not be read as a square.
#[derive(Debug)]
pub struct InvalidSquareFormat {
    pub input: String,
}

impl InvalidSquareFormat {
    pub fn new(input: &str) -> (r: Self)
        ensures
            r.input@ == input@,
    {
        Self { input: input.to_string() }
    }
}

/// Why a text could not be read as a square.
#[derive(Debug)]
pub enum SquareError {
    InvalidSquareFormat(InvalidSquareFormat),
}

impl SquareError {
    pub open spec fn input(self) -> Seq<char> {
        match self {
            SquareError::InvalidSquareFormat(e) => e.input@,
        }
    }
}

} // verus!
