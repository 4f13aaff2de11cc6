//! The optimistic conditional patch.
//!
//! The shared record is never written unconditionally: every write is
//! a test-then-replace pair that the backing store applies atomically,
//! rejecting the whole patch with a conflict when the tested field no
//! longer holds the expected bytes.

use vstd::prelude::*;

verus! {

/// A compare-and-swap write of the shared record's text field.
pub struct ConditionalPatch {
    /// The serialized value the field must still hold, byte for byte.
    pub expect: Vec<u8>,
    /// The serialized value the field is replaced with.
    pub replace: Vec<u8>,
}

/// Build the conditional patch that asserts the field still holds
/// `prior_text` and then replaces it with `new_text`.
pub fn build_conditional_patch(prior_text: Vec<u8>, new_text: Vec<u8>) -> (p: ConditionalPatch)
    ensures
        p.expect@ == prior_text@,
        p.replace@ == new_text@,
{
    ConditionalPatch { expect: prior_text, replace: new_text }
}

} // verus!
