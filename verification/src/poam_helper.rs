//! What a proving step hands on for the next one to verify.
use vstd::prelude::*;

verus! {

/// The image id of a receipt and the public data of its journal: the public output
/// and the metadata, both JSON.
pub struct VerificationMetadata {
    pub image_id: [u32; 8],
    pub journal_data: (String, String),
}

} // verus!
