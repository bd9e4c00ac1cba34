use vstd::prelude::*;

verus! {

/// The ledger's own error classifications.
#[derive(Clone, Copy, Debug, PartialEq, Eq, Structural)]
pub enum CustomerDataError {
    /// The account is not owned by the program.
    InvalidInstruction,
    /// An update named no customer id or no LEI.
    MissingCustomerId,
    /// An update named a (customer id, LEI) pair that the ledger does not hold.
    InvalidCustomerId,
}

impl CustomerDataError {
    /// The numeric code under which the host reports this error.
    pub open spec fn spec_code(self) -> u32 {
        match self {
            CustomerDataError::InvalidInstruction => 0,
            CustomerDataError::MissingCustomerId => 1,
            CustomerDataError::InvalidCustomerId => 2,
        }
    }

    pub fn code(&self) -> (r: u32)
        ensures
            r == self.spec_code(),
    {
        match self {
            CustomerDataError::InvalidInstruction => 0,
            CustomerDataError::MissingCustomerId => 1,
            CustomerDataError::InvalidCustomerId => 2,
        }
    }
}

/// Why a request was not carried out.
#[derive(Clone, Copy, Debug, PartialEq, Eq, Structural)]
pub enum ProcessError {
    /// One of the ledger's own classifications.
    Custom(CustomerDataError),
    /// The payload is not valid text or not a well-formed request.
    InvalidInstructionData,
    /// The updated ledger's encoding does not fit in the account's buffer.
    AccountDataTooSmall,
}

} // verus!
