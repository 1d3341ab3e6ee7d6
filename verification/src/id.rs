//! Record references: a table name paired with a freshly drawn identifier.

use vstd::prelude::*;

verus! {

/// Relies on rand::random: draws a machine-word value from the thread-local
/// generator. Nothing is promised of the value drawn.
#[verifier::external_body]
fn random_u64() -> u64 {
    rand::random::<u64>()
}

/// A record identifier. Fresh values come from a non-deterministic source:
/// no two draws are guaranteed distinct, and none is checked against
/// earlier ones.
#[derive(Debug, Clone, PartialEq, Eq)]
pub struct Id(pub u64);

impl Id {
    /// Draw a fresh random identifier.
    pub fn rand() -> Id {
        Id(random_u64())
    }
}

/// A reference to one specific record: the name of its table together with
/// the record's identifier.
#[derive(Debug, Clone, PartialEq, Eq)]
pub struct Thing {
    pub tb: String,
    pub id: Id,
}

} // verus!
