//! Refusals of keys and addresses.
use vstd::prelude::*;
use vstd::string::*;

use crate::text::Describe;

verus! {

/// Bytes at or above the field modulus.
#[derive(Debug, Clone, Copy, PartialEq, Eq, Structural)]
pub struct NonCanonical;

/// Custody that refuses to reveal its scalar.
#[derive(Debug, Clone, Copy, PartialEq, Eq, Structural)]
pub struct NotExportable;

/// Bytes that decode to no valid key.
#[derive(Debug, Clone, Copy, PartialEq, Eq, Structural)]
pub struct InvalidKey;

/// Bytes that decode to no pair of owner and viewing credential.
#[derive(Debug, Clone, Copy, PartialEq, Eq, Structural)]
pub struct InvalidAddress;

impl Describe for NonCanonical {
    open spec fn text(&self) -> Seq<char> {
        "bytes are not a canonical field element"@
    }

    fn describe(&self) -> (text: String) {
        String::from_str("bytes are not a canonical field element")
    }
}

impl Describe for NotExportable {
    open spec fn text(&self) -> Seq<char> {
        "custody refuses to export the spending scalar"@
    }

    fn describe(&self) -> (text: String) {
        String::from_str("custody refuses to export the spending scalar")
    }
}

impl Describe for InvalidKey {
    open spec fn text(&self) -> Seq<char> {
        "bytes are not a valid key for this kem"@
    }

    fn describe(&self) -> (text: String) {
        String::from_str("bytes are not a valid key for this kem")
    }
}

impl Describe for InvalidAddress {
    open spec fn text(&self) -> Seq<char> {
        "bytes are not an owner and viewing credential pair"@
    }

    fn describe(&self) -> (text: String) {
        String::from_str("bytes are not an owner and viewing credential pair")
    }
}

} // verus!
