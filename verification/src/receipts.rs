//! Reading proofs that arrive as bytes: the receipt, its journal, the answer to a
//! verification request, and the walk along a chain of proofs to compose.
use vstd::prelude::*;

use crate::host::image_id_from_words;
use crate::poam_helper::VerificationMetadata;

verus! {

/// The journal bytes of the zkVM receipt that `bytes` encode with `bincode`, `None`
/// when they encode no receipt.
pub uninterp spec fn receipt_journal_bytes(bytes: Seq<u8>) -> Option<Seq<u8>>;

/// The string that journal bytes hold in the zkVM's word encoding, `None` when they hold
/// none.
pub uninterp spec fn journal_text(journal: Seq<u8>) -> Option<Seq<char>>;

/// The pair of strings (the public output and the metadata) that journal bytes hold in
/// the zkVM's word encoding, `None` when they hold none.
pub uninterp spec fn journal_pair(journal: Seq<u8>) -> Option<(Seq<char>, Seq<char>)>;

/// The string that `bytes` encode with `bincode`, `None` when they encode none.
pub uninterp spec fn encoded_string(bytes: Seq<u8>) -> Option<Seq<char>>;

/// `bincode::deserialize::<Receipt>` on the bytes, keeping the receipt's journal bytes.
#[verifier::external_body]
fn journal_of(bytes: &[u8]) -> (j: Option<Vec<u8>>)
    ensures
        j is Some <==> receipt_journal_bytes(bytes@) is Some,
        j is Some ==> receipt_journal_bytes(bytes@) == Some(j->0@),
{
    bincode::deserialize::<risc0_zkvm::Receipt>(bytes).ok().map(|receipt| receipt.journal.bytes)
}

/// `risc0_zkvm::serde::from_slice::<String>`, which `Journal::decode` calls, on journal
/// bytes. It panics on bytes that are word-aligned in memory but not a whole number of
/// words, so only whole words are handed to it.
#[verifier::external_body]
fn decode_text(journal: &[u8]) -> (t: Option<String>)
    requires
        journal@.len() % 4 == 0,
    ensures
        t is Some <==> journal_text(journal@) is Some,
        t is Some ==> journal_text(journal@) == Some(t->0@),
{
    risc0_zkvm::serde::from_slice::<String, u8>(journal).ok()
}

/// `risc0_zkvm::serde::from_slice::<(String, String)>`, which `Journal::decode` calls,
/// on journal bytes; only whole words are handed to it, as for `decode_text`.
#[verifier::external_body]
fn decode_pair(journal: &[u8]) -> (p: Option<(String, String)>)
    requires
        journal@.len() % 4 == 0,
    ensures
        p is Some <==> journal_pair(journal@) is Some,
        p matches Some(pair) ==> journal_pair(journal@) == Some((pair.0@, pair.1@)),
{
    risc0_zkvm::serde::from_slice::<(String, String), u8>(journal).ok()
}

/// `bincode::deserialize::<String>` on the bytes.
#[verifier::external_body]
fn decode_string(bytes: &[u8]) -> (s: Option<String>)
    ensures
        s is Some <==> encoded_string(bytes@) is Some,
        s is Some ==> encoded_string(bytes@) == Some(s->0@),
{
    bincode::deserialize::<String>(bytes).ok()
}

/// The string a journal holds: `None` when it is not a whole number of words (which
/// the decoder cannot read) or holds no string.
pub fn read_journal_text(journal: &Vec<u8>) -> (t: Option<String>)
    ensures
        t is Some <==> journal@.len() % 4 == 0 && journal_text(journal@) is Some,
        t is Some ==> journal_text(journal@) == Some(t->0@),
{
    if journal.len() % 4 == 0 {
        decode_text(journal.as_slice())
    } else {
        None
    }
}

/// The pair of strings a journal holds: `None` when it is not a whole number of words
/// or holds no such pair.
pub fn read_journal_pair(journal: &Vec<u8>) -> (p: Option<(String, String)>)
    ensures
        p is Some <==> journal@.len() % 4 == 0 && journal_pair(journal@) is Some,
        p matches Some(pair) ==> journal_pair(journal@) == Some((pair.0@, pair.1@)),
{
    if journal.len() % 4 == 0 {
        decode_pair(journal.as_slice())
    } else {
        None
    }
}

/// What a request to verify a proof is answered.
pub enum VerifyOutcome {
    /// The request carried no proof.
    MissingProof,
    /// The image id is not eight words.
    BadImageId,
    /// The receipt bytes are no receipt.
    BadReceipt,
    /// The receipt's journal holds no string.
    BadJournal,
    /// The receipt was checked against the image id: whether it verified, and the
    /// public output its journal holds.
    Checked { valid: bool, public_output: String },
}

/// The first half of answering a verification request: either the answer, or the image
/// id the receipt is to be verified against.
pub enum VerifyStep {
    Answered(VerifyOutcome),
    Verify { image_id: [u32; 8] },
}

/// What the first half answers for a proof with image id words `id` and receipt bytes
/// `bytes`: a bad image id, else a bad receipt, else verify against the image id.
pub open spec fn begins_as(id: Seq<u32>, bytes: Seq<u8>, r: VerifyStep) -> bool {
    if id.len() != 8 {
        r matches VerifyStep::Answered(VerifyOutcome::BadImageId)
    } else if receipt_journal_bytes(bytes) is None {
        r matches VerifyStep::Answered(VerifyOutcome::BadReceipt)
    } else {
        r matches VerifyStep::Verify { image_id } && image_id@ == id
    }
}

/// Starts answering a request to verify the `submitted` proof, given as its image id
/// words and its receipt bytes: a proof must be there, its image id must be eight words
/// and its bytes a receipt; then the receipt is to be verified against that image id.
pub fn begin_verification(submitted: &Option<(Vec<u32>, Vec<u8>)>) -> (r: VerifyStep)
    ensures
        submitted is None ==> r matches VerifyStep::Answered(VerifyOutcome::MissingProof),
        submitted matches Some(proof_parts) ==> begins_as(proof_parts.0@, proof_parts.1@, r),
{
    match submitted {
        None => VerifyStep::Answered(VerifyOutcome::MissingProof),
        Some((id, bytes)) => match image_id_from_words(id) {
            None => VerifyStep::Answered(VerifyOutcome::BadImageId),
            Some(image_id) => match journal_of(bytes.as_slice()) {
                None => VerifyStep::Answered(VerifyOutcome::BadReceipt),
                Some(_) => VerifyStep::Verify { image_id },
            },
        },
    }
}

/// What the second half answers for the receipt bytes `bytes` whose verification gave
/// `valid`: a bad receipt, else a bad journal, else the verdict with the public output
/// the journal holds.
pub open spec fn finishes_as(bytes: Seq<u8>, valid: bool, r: VerifyOutcome) -> bool {
    match receipt_journal_bytes(bytes) {
        None => r is BadReceipt,
        Some(journal) => if journal.len() % 4 != 0 || journal_text(journal) is None {
            r is BadJournal
        } else {
            r matches VerifyOutcome::Checked { valid: v, public_output } && v == valid && journal_text(
                journal,
            ) == Some(public_output@)
        },
    }
}

/// Finishes answering a verification request once the receipt `bytes` were verified,
/// with verdict `valid`: the answer carries that verdict and the public output the
/// receipt's journal holds.
pub fn finish_verification(bytes: &Vec<u8>, valid: bool) -> (r: VerifyOutcome)
    ensures
        finishes_as(bytes@, valid, r),
{
    match journal_of(bytes.as_slice()) {
        None => VerifyOutcome::BadReceipt,
        Some(journal) => match read_journal_text(&journal) {
            None => VerifyOutcome::BadJournal,
            Some(public_output) => VerifyOutcome::Checked { valid, public_output },
        },
    }
}

/// Why a proof could not be read as verification metadata.
#[derive(Debug, Clone, Copy, PartialEq, Eq, Structural)]
pub enum MetadataError {
    /// The receipt bytes are no receipt.
    BadReceipt,
    /// The image id is not eight words.
    BadImageId,
    /// The receipt's journal holds no pair of strings.
    BadJournal,
}

/// What reading a proof with image id words `id` and receipt bytes `bytes` as
/// verification metadata gives: a bad receipt, else a bad image id, else a bad journal,
/// else the image id with the journal's pair of strings.
pub open spec fn reads_as_metadata(
    id: Seq<u32>,
    bytes: Seq<u8>,
    r: Result<VerificationMetadata, MetadataError>,
) -> bool {
    match receipt_journal_bytes(bytes) {
        None => r == Err::<VerificationMetadata, MetadataError>(MetadataError::BadReceipt),
        Some(journal) => if id.len() != 8 {
            r == Err::<VerificationMetadata, MetadataError>(MetadataError::BadImageId)
        } else if journal.len() % 4 != 0 || journal_pair(journal) is None {
            r == Err::<VerificationMetadata, MetadataError>(MetadataError::BadJournal)
        } else {
            r matches Ok(m) && m.image_id@ == id && journal_pair(journal) == Some(
                (m.journal_data.0@, m.journal_data.1@),
            )
        },
    }
}

/// Reads a proof, given as its image id words and its receipt bytes, as the
/// verification metadata a next step is handed: the image id and the journal's pair of
/// strings. The receipt is read first, then the image id, then the journal.
pub fn verification_metadata(image_id: &Vec<u32>, receipt: &Vec<u8>) -> (r: Result<
    VerificationMetadata,
    MetadataError,
>)
    ensures
        reads_as_metadata(image_id@, receipt@, r),
{
    match journal_of(receipt.as_slice()) {
        None => Err(MetadataError::BadReceipt),
        Some(journal) => match image_id_from_words(image_id) {
            None => Err(MetadataError::BadImageId),
            Some(id) => match read_journal_pair(&journal) {
                Some(journal_data) => Ok(VerificationMetadata { image_id: id, journal_data }),
                None => Err(MetadataError::BadJournal),
            },
        },
    }
}

/// The name of the file a stored proof lives in, which the proof's receipt field holds
/// encoded with `bincode`; `None` when it holds no string.
pub fn stored_file_name(receipt: &Vec<u8>) -> (name: Option<String>)
    ensures
        name is Some <==> encoded_string(receipt@) is Some,
        name matches Some(n) ==> encoded_string(receipt@) == Some(n@),
{
    decode_string(receipt.as_slice())
}

/// Where the composition of a chain of `len` proofs stands: `next` is the proof to
/// compose the running result with next. The running result starts as the first proof.
pub struct ChainFold {
    pub next: usize,
    pub len: usize,
}

/// What to do next in composing a chain.
#[derive(Debug, Clone, Copy, PartialEq, Eq, Structural)]
pub enum FoldAction {
    /// Compose the running result with the proof at this position, which becomes the
    /// running result.
    ComposeWith(usize),
    /// The running result is the composition of the whole chain.
    Finish,
}

impl ChainFold {
    /// The next action, and where the composition stands after it: compose with the
    /// next proof while there is one, else finish.
    pub open spec fn stepped(self) -> (FoldAction, ChainFold) {
        if self.next < self.len {
            (FoldAction::ComposeWith(self.next), ChainFold { next: (self.next + 1) as usize, len: self.len })
        } else {
            (FoldAction::Finish, self)
        }
    }

    /// Where the composition stands after `k` steps.
    pub open spec fn after_steps(self, k: nat) -> ChainFold
        decreases k,
    {
        if k == 0 {
            self
        } else {
            self.after_steps((k - 1) as nat).stepped().1
        }
    }

    /// Where the composition of a chain of `len` proofs starts: the running result is
    /// the first proof, and the second is next.
    pub open spec fn begun(len: usize) -> ChainFold {
        ChainFold { next: 1, len }
    }

    /// Starts composing a chain of `len` proofs; an empty chain has nothing to compose.
    pub fn start(len: usize) -> (f: Option<ChainFold>)
        ensures
            f is Some <==> len > 0,
            f matches Some(s) ==> s == ChainFold::begun(len),
    {
        if len == 0 {
            None
        } else {
            Some(ChainFold { next: 1, len })
        }
    }

    /// The next action, and where the composition stands after it.
    pub fn step(&self) -> (r: (FoldAction, ChainFold))
        ensures
            r == self.stepped(),
    {
        if self.next < self.len {
            (FoldAction::ComposeWith(self.next), ChainFold { next: self.next + 1, len: self.len })
        } else {
            (FoldAction::Finish, ChainFold { next: self.next, len: self.len })
        }
    }
}

/// Composing a chain of `len` proofs takes each proof after the first exactly once, in
/// order: the step after `k` steps from the start composes with proof `k + 1` while
/// there is one, and finishes once all `len` proofs are in.
pub proof fn fold_takes_each_proof_once(len: usize, k: nat)
    requires
        len > 0,
    ensures
        k + 1 < len ==> ChainFold::begun(len).after_steps(k).next == k + 1,
        k + 1 >= len ==> ChainFold::begun(len).after_steps(k).next == len,
        ChainFold::begun(len).after_steps(k).len == len,
        k + 1 < len ==> ChainFold::begun(len).after_steps(k).stepped().0 == FoldAction::ComposeWith(
            (k + 1) as usize,
        ),
        k + 1 >= len ==> ChainFold::begun(len).after_steps(k).stepped().0 == FoldAction::Finish,
    decreases k,
{
    if k > 0 {
        fold_takes_each_proof_once(len, (k - 1) as nat);
    }
}

} // verus!
