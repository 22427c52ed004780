use vstd::prelude::*;

verus! {

/// The failures that the allocator reports.
#[derive(Debug, Clone, Copy, PartialEq, Eq, Structural)]
pub enum AllocError {
    /// Out of memory.
    ENOMEM,
    /// Double free.
    EDBFRE,
    /// Use after free.
    EUAF,
    /// Bad layout.
    ELAYOUT,
    /// Bad size.
    ESIZE,
    /// Out of bounds.
    EOOB,
    /// The caller runs on another CPU than the one whose cache it holds.
    ECPU,
    /// Fatal error.
    EFATAL,
}

impl AllocError {
    /// The errno-like code of each failure: -1 for `ENOMEM` down to -8 for
    /// `EFATAL`.
    pub open spec fn code(self) -> i32 {
        match self {
            AllocError::ENOMEM => -1i32,
            AllocError::EDBFRE => -2i32,
            AllocError::EUAF => -3i32,
            AllocError::ELAYOUT => -4i32,
            AllocError::ESIZE => -5i32,
            AllocError::EOOB => -6i32,
            AllocError::ECPU => -7i32,
            AllocError::EFATAL => -8i32,
        }
    }

    pub fn to_raw_errno(&self) -> (code: i32)
        ensures
            code == self.code(),
    {
        match self {
            AllocError::ENOMEM => -1i32,
            AllocError::EDBFRE => -2i32,
            AllocError::EUAF => -3i32,
            AllocError::ELAYOUT => -4i32,
            AllocError::ESIZE => -5i32,
            AllocError::EOOB => -6i32,
            AllocError::ECPU => -7i32,
            AllocError::EFATAL => -8i32,
        }
    }
}

} // verus!
