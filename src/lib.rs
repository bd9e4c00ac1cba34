//! A customer ledger kept in an account's byte buffer: records are decoded
//! from the buffer, a request inserts a record or updates a record's KYC
//! status, and the ledger is written back in its compact binary layout.
use vstd::prelude::*;

pub mod codec;
pub mod error;
pub mod processor;
pub mod state;

pub use error::{CustomerDataError, ProcessError};
pub use processor::{Operation, Processor, Pubkey};
pub use state::{AddressData, CustomerData, CustomerDataList, CustomerView, KycDocument};

verus! {

} // verus!
