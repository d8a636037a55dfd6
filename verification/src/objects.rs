//! Records as the program model holds them before they are committed.

use crate::programs::Record;
use vstd::prelude::*;

verus! {

/// A record of which any part may still be unset.
pub struct VirtualRecord {
    pub owner: Option<String>,
    pub value: Option<u64>,
    pub payload: Option<Vec<u8>>,
    pub birth_program_id: Option<Vec<u8>>,
    pub death_program_id: Option<Vec<u8>>,
    pub commitment: Option<[u8; 32]>,
    pub commitment_randomness: Option<[u8; 32]>,
    pub serial_number_nonce: Option<[u8; 32]>,
    pub serial_number_nonce_randomness: Option<[u8; 32]>,
}

impl VirtualRecord {
    /// Whether the record carries no value: its value is zero or unset.
    pub open spec fn carries_nothing(&self) -> bool {
        self.value is None || self.value == Some(0u64)
    }
}

impl Record for VirtualRecord {
    /// A record is a dummy when its value is zero or unset.
    fn is_dummy(&self) -> (dummy: bool)
        ensures
            dummy == self.carries_nothing(),
    {
        // Check that the record value is zero or unset.
        match self.value {
            Some(value) => value == 0,
            None => true,
        }
    }
}

} // verus!
