use vstd::prelude::*;

verus! {

/// The type of an SSA value.
#[derive(Clone, Copy, Debug, PartialEq, Eq, Structural)]
pub enum Type {
    Unit,
    Bool,
    Unsigned(u32),
    Signed(u32),
    Field,
    Function,
}

/// Bit width of the native field element.
pub const FIELD_BITS: u32 = 254;

impl Type {
    pub open spec fn spec_bit_size(self) -> Option<u32> {
        match self {
            Type::Bool => Some(1u32),
            Type::Unsigned(b) => Some(b),
            Type::Signed(b) => Some(b),
            Type::Field => Some(FIELD_BITS),
            _ => None,
        }
    }

    pub open spec fn spec_is_numeric(self) -> bool {
        self.spec_bit_size().is_some()
    }

    /// The width in bits of a numeric type, `None` for the others.
    pub fn bit_size(&self) -> (r: Option<u32>)
        ensures
            r == self.spec_bit_size(),
    {
        match self {
            Type::Bool => Some(1u32),
            Type::Unsigned(b) => Some(*b),
            Type::Signed(b) => Some(*b),
            Type::Field => Some(FIELD_BITS),
            _ => None,
        }
    }

    pub fn is_numeric(&self) -> (r: bool)
        ensures
            r == self.spec_is_numeric(),
    {
        self.bit_size().is_some()
    }
}

} // verus!
