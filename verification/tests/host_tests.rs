use poam::host::{
    image_id_from_words, proof_path, receipt_file_name, split_into_chunks, to_lower_hex, CHUNK_SIZE,
};
use poam::operations::Operation;
use poam::poam_helper::VerificationMetadata;

#[test]
fn operation_names_parse() {
    assert_eq!(Operation::parse("add"), Ok(Operation::Add));
    assert_eq!(Operation::parse("sub"), Ok(Operation::Sub));
    assert_eq!(Operation::parse("mul"), Ok(Operation::Mul));
    assert_eq!(Operation::parse("div"), Ok(Operation::Div));
    assert_eq!("mul".parse::<Operation>(), Ok(Operation::Mul));
}

#[test]
fn other_operation_names_are_refused() {
    assert_eq!(Operation::parse("Add"), Err(()));
    assert_eq!(Operation::parse(""), Err(()));
    assert_eq!(Operation::parse("adds"), Err(()));
    assert_eq!("pow".parse::<Operation>(), Err(()));
}

#[test]
fn image_ids_need_eight_words() {
    let words: Vec<u32> = (1..=8).collect();
    assert_eq!(image_id_from_words(&words), Some([1, 2, 3, 4, 5, 6, 7, 8]));
    assert_eq!(image_id_from_words(&vec![1, 2, 3]), None);
    assert_eq!(image_id_from_words(&vec![0; 9]), None);
    assert_eq!(image_id_from_words(&vec![]), None);
}

#[test]
fn chunks_cover_the_buffer() {
    assert!(split_into_chunks(&vec![]).is_empty());
    let exact: Vec<u8> = vec![7; CHUNK_SIZE];
    assert_eq!(split_into_chunks(&exact), vec![exact.clone()]);
    let buffer: Vec<u8> = (0..10000u32).map(|i| (i % 251) as u8).collect();
    let chunks = split_into_chunks(&buffer);
    assert_eq!(chunks.iter().map(|c| c.len()).collect::<Vec<_>>(), vec![4096, 4096, 1808]);
    assert_eq!(chunks.concat(), buffer);
    let one_more: Vec<u8> = vec![1; CHUNK_SIZE + 1];
    assert_eq!(split_into_chunks(&one_more).len(), 2);
}

#[test]
fn hex_is_two_lower_digits_per_byte() {
    assert_eq!(to_lower_hex(&[10, 20, 30]), "0a141e");
    assert_eq!(to_lower_hex(&[]), "");
    assert_eq!(to_lower_hex(&[0, 255, 171]), "00ffab");
}

#[test]
fn proof_files_are_named_by_digest() {
    assert_eq!(
        receipt_file_name(b"hello"),
        "2cf24dba5fb0a30e26e83b2ac5b9e29e1b161e5c1fa7425e73043362938b9824.receipt"
    );
    assert_eq!(
        receipt_file_name(b""),
        "e3b0c44298fc1c149afbf4c8996fb92427ae41e4649b934ca495991b7852b855.receipt"
    );
    assert_eq!(proof_path("abc.receipt"), "proofs/abc.receipt");
}

#[test]
fn verification_metadata_holds_journal() {
    let vm = VerificationMetadata {
        image_id: [1; 8],
        journal_data: ("3.0".to_string(), "true".to_string()),
    };
    assert_eq!(vm.image_id, [1; 8]);
    assert_eq!(vm.journal_data.1, "true");
}
