use vstd::prelude::*;

verus! {

/// Number of Boolean variables.
pub const N: u32 = 4;

/// Truth table of the constant-true function: `2^N` bits, all ones.
pub const TAUTOLOGY: u32 = 0xffff;

/// Number of distinct truth tables of `N` variables: `2^(2^N)`.
pub const NUM_FUNCTIONS: usize = 0x10000;

/// A Boolean function of `N` variables, represented by its `2^N`-bit truth
/// table. Bit `i` of the table is the function's value on the input
/// whose binary encoding is `i`. Two functions are equal exactly when their
/// tables are bit-identical.
#[derive(Clone, Copy, PartialEq, Eq, Structural, Debug)]
pub struct Function(pub u32);

/// Complement of a truth table, masked back into the valid range.
pub open spec fn spec_not(x: u32) -> u32 {
    !x & TAUTOLOGY
}

impl Function {
    /// The table lies in the valid range `[0, TAUTOLOGY]`.
    pub open spec fn valid(self) -> bool {
        self.0 <= TAUTOLOGY
    }

    /// Masks an arbitrary bit pattern into the valid table range.
    pub fn new(value: u32) -> (f: Function)
        ensures
            f.0 == value & TAUTOLOGY,
            f.valid(),
    {
        proof {
            assert(value & TAUTOLOGY <= TAUTOLOGY) by (bit_vector);
        }
        Function(value & TAUTOLOGY)
    }

    /// The table value as an index into arrays over all `NUM_FUNCTIONS`
    /// function values.
    pub fn index(self) -> (i: usize)
        ensures
            i == self.0,
    {
        self.0 as usize
    }
}

} // verus!
