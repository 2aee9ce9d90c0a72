use sparse_bullshark::transaction::{Transaction, TransactionGenerator};

#[test]
fn transaction_is_padded_with_the_letter_x() {
    assert_eq!(Transaction::new(0).padding, "");
    assert_eq!(Transaction::new(1).padding, "X");
    assert_eq!(Transaction::new(5).padding, "XXXXX");
    assert_eq!(Transaction::new(300).padding, "X".repeat(300));
}

#[test]
fn generator_pads_to_the_target_size() {
    // The encoding of a transaction is eight bytes of length and the padding.
    for (target, padding) in [(0usize, 0usize), (1, 0), (8, 0), (9, 1), (10, 2), (64, 56), (100, 92)] {
        let generator = TransactionGenerator::new(target, 3);
        assert_eq!(generator.padding, padding);
        assert_eq!(generator.transactions_per_block, 3);
        let size = bincode::serialize(&Transaction::new(padding).padding).unwrap().len();
        assert!(size >= target);
        if padding > 0 {
            assert!(size - 1 < target);
        }
    }
}

#[test]
fn generator_makes_the_transactions_of_a_block() {
    let mut generator = TransactionGenerator::new(12, 3);
    let txs = generator.generate();
    assert_eq!(txs.len(), 3);
    for tx in &txs {
        assert_eq!(tx.padding, "XXXX");
    }
    assert_eq!(generator.generate().len(), 3);
    let mut none = TransactionGenerator::new(12, 0);
    assert!(none.generate().is_empty());
}

#[test]
fn a_block_is_the_encoding_of_its_transactions() {
    let mut generator = TransactionGenerator::new(10, 2);
    let block = generator.generate_block();
    let mut expected: Vec<u8> = Vec::new();
    expected.extend_from_slice(&2u64.to_le_bytes());
    for _ in 0..2 {
        expected.extend_from_slice(&2u64.to_le_bytes());
        expected.extend_from_slice(b"XX");
    }
    assert_eq!(block, expected);
    assert_eq!(block, bincode::serialize(&vec!["XX".to_string(), "XX".to_string()]).unwrap());
    assert_eq!(generator.generate_block(), block);
    let mut empty = TransactionGenerator::new(0, 0);
    assert_eq!(empty.generate_block(), vec![0u8; 8]);
}

#[test]
fn a_block_counts_bytes_not_characters() {
    // The padding is ASCII, one byte to the letter: 300 letters take the
    // count 300 in eight bytes, least significant first.
    let mut generator = TransactionGenerator::new(308, 1);
    assert_eq!(generator.padding, 300);
    let block = generator.generate_block();
    assert_eq!(&block[..8], &[1, 0, 0, 0, 0, 0, 0, 0]);
    assert_eq!(&block[8..16], &[44, 1, 0, 0, 0, 0, 0, 0]);
    assert_eq!(block.len(), 16 + 300);
    assert!(block[16..].iter().all(|&b| b == b'X'));
}
