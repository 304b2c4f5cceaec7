use poam::receipts::{
    begin_verification, finish_verification, read_journal_pair, read_journal_text, stored_file_name,
    verification_metadata, ChainFold, FoldAction, MetadataError, VerifyOutcome, VerifyStep,
};
use risc0_zkvm::{FakeReceipt, InnerReceipt, Receipt, ReceiptClaim};

const IMAGE: [u32; 8] = [1, 2, 3, 4, 5, 6, 7, 8];

fn journal_bytes<T: serde::Serialize>(value: &T) -> Vec<u8> {
    let words = risc0_zkvm::serde::to_vec(value).unwrap();
    words.iter().flat_map(|w| w.to_le_bytes()).collect()
}

fn fake_receipt_bytes(journal: Vec<u8>) -> Vec<u8> {
    let claim = ReceiptClaim::ok(IMAGE, journal.clone());
    let receipt = Receipt::new(InnerReceipt::Fake(FakeReceipt::new(claim)), journal);
    bincode::serialize(&receipt).unwrap()
}

fn verify_request(submitted: Option<(Vec<u32>, Vec<u8>)>) -> VerifyOutcome {
    match begin_verification(&submitted) {
        VerifyStep::Answered(outcome) => outcome,
        VerifyStep::Verify { image_id } => {
            let bytes = submitted.unwrap().1;
            let receipt: Receipt = bincode::deserialize(&bytes).unwrap();
            finish_verification(&bytes, receipt.verify(image_id).is_ok())
        }
    }
}

#[test]
fn verify_without_proof_is_refused() {
    assert!(matches!(verify_request(None), VerifyOutcome::MissingProof));
}

#[test]
fn verify_with_short_image_id_is_refused() {
    let bytes = fake_receipt_bytes(journal_bytes(&"out".to_string()));
    assert!(matches!(verify_request(Some((vec![1, 2, 3], bytes))), VerifyOutcome::BadImageId));
}

#[test]
fn verify_with_garbage_bytes_is_refused() {
    assert!(matches!(verify_request(Some((IMAGE.to_vec(), vec![1, 2, 3]))), VerifyOutcome::BadReceipt));
}

#[test]
fn verify_reads_the_public_output() {
    let bytes = fake_receipt_bytes(journal_bytes(&"out".to_string()));
    match begin_verification(&Some((IMAGE.to_vec(), bytes.clone()))) {
        VerifyStep::Verify { image_id } => assert_eq!(image_id, IMAGE),
        _ => panic!("a well-formed receipt was refused"),
    }
    match verify_request(Some((IMAGE.to_vec(), bytes))) {
        VerifyOutcome::Checked { public_output, .. } => assert_eq!(public_output, "out"),
        _ => panic!("a well-formed receipt was refused"),
    }
}

#[test]
fn verification_answer_carries_the_verdict() {
    let bytes = fake_receipt_bytes(journal_bytes(&"out".to_string()));
    assert!(matches!(finish_verification(&bytes, true), VerifyOutcome::Checked { valid: true, .. }));
    assert!(matches!(finish_verification(&bytes, false), VerifyOutcome::Checked { valid: false, .. }));
    assert!(matches!(finish_verification(&vec![0], true), VerifyOutcome::BadReceipt));
}

#[test]
fn verify_with_empty_journal_is_refused() {
    let bytes = fake_receipt_bytes(Vec::new());
    assert!(matches!(verify_request(Some((IMAGE.to_vec(), bytes))), VerifyOutcome::BadJournal));
}

#[test]
fn journal_of_partial_words_is_refused() {
    let mut journal = journal_bytes(&"out".to_string());
    journal.push(0);
    assert_eq!(read_journal_text(&journal), None);
    let bytes = fake_receipt_bytes(journal);
    assert!(matches!(verify_request(Some((IMAGE.to_vec(), bytes))), VerifyOutcome::BadJournal));
}

#[test]
fn journal_pair_is_read_from_words() {
    let pair = ("out".to_string(), "meta".to_string());
    assert_eq!(read_journal_pair(&journal_bytes(&pair)), Some(pair));
    assert_eq!(read_journal_text(&journal_bytes(&"x".to_string())), Some("x".to_string()));
}

#[test]
fn metadata_reads_image_id_and_journal_pair() {
    let pair = ("out".to_string(), "meta".to_string());
    let bytes = fake_receipt_bytes(journal_bytes(&pair));
    let m = verification_metadata(&IMAGE.to_vec(), &bytes).unwrap();
    assert_eq!(m.image_id, IMAGE);
    assert_eq!(m.journal_data, pair);
}

#[test]
fn metadata_errors_come_in_order() {
    assert_eq!(verification_metadata(&vec![1], &vec![9, 9]).err(), Some(MetadataError::BadReceipt));
    let bytes = fake_receipt_bytes(journal_bytes(&("a".to_string(), "b".to_string())));
    assert_eq!(verification_metadata(&vec![1], &bytes).err(), Some(MetadataError::BadImageId));
    let empty = fake_receipt_bytes(Vec::new());
    assert_eq!(verification_metadata(&IMAGE.to_vec(), &empty).err(), Some(MetadataError::BadJournal));
}

#[test]
fn stored_file_name_decodes_bincode_string() {
    let encoded = bincode::serialize(&"abc.bin".to_string()).unwrap();
    assert_eq!(stored_file_name(&encoded), Some("abc.bin".to_string()));
    assert_eq!(stored_file_name(&vec![1, 2]), None);
}

#[test]
fn chain_fold_composes_each_proof_once() {
    assert!(ChainFold::start(0).is_none());
    let mut fold = ChainFold::start(3).unwrap();
    let mut taken = Vec::new();
    loop {
        let (action, next) = fold.step();
        match action {
            FoldAction::ComposeWith(i) => taken.push(i),
            FoldAction::Finish => break,
        }
        fold = next;
    }
    assert_eq!(taken, vec![1, 2]);
    let single = ChainFold::start(1).unwrap();
    assert_eq!(single.step().0, FoldAction::Finish);
}
