//! What an interpreter of the protocol hands to the code that it runs in a
//! bucket.

use vstd::prelude::*;

verus! {

/// A bucket of the store, open in a transaction: `jammdb::Bucket`. Nothing
/// is said of what it holds; the library only carries it.
#[verifier::external_type_specification]
#[verifier::external_body]
pub struct ExBucket<'b, 'tx>(jammdb::Bucket<'b, 'tx>);

/// The bytes of a value, or a live bucket of the store.
pub enum Para<'a, 'tx> {
    Data(&'a [u8]),
    Bucket(jammdb::Bucket<'a, 'tx>),
}

} // verus!
