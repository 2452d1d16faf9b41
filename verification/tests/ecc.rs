use beyond_qr::ecc::{decode_blocks, encode_blocks, EccError, RS_BLOCK_SIZE, RS_DATA_PER_BLOCK, RS_PARITY_PER_BLOCK};

#[test]
fn clean_roundtrip_single_block() {
    let data: Vec<u8> = (0..RS_DATA_PER_BLOCK).map(|i| i as u8).collect();
    let encoded = encode_blocks(&data);
    assert_eq!(encoded.len(), RS_BLOCK_SIZE);
    let decoded = decode_blocks(&encoded).expect("decode failed");
    assert_eq!(decoded, data);
}

#[test]
fn clean_roundtrip_multi_block() {
    let n = 6;
    let data: Vec<u8> = (0..n * RS_DATA_PER_BLOCK).map(|i| (i % 251) as u8).collect();
    let encoded = encode_blocks(&data);
    assert_eq!(encoded.len(), n * RS_BLOCK_SIZE);
    let decoded = decode_blocks(&encoded).expect("decode failed");
    assert_eq!(decoded, data);
}

#[test]
fn corrects_up_to_half_parity_errors() {
    let data: Vec<u8> = (0..RS_DATA_PER_BLOCK).map(|i| i as u8).collect();
    let mut encoded = encode_blocks(&data);
    for i in 0..(RS_PARITY_PER_BLOCK / 2) {
        encoded[i * 3] ^= 0xA5;
    }
    let decoded = decode_blocks(&encoded).expect("decode within bound failed");
    assert_eq!(decoded, data);
}

#[test]
fn codewords_are_systematic_with_parity() {
    let data: Vec<u8> = (0..RS_DATA_PER_BLOCK).map(|i| (i * 7) as u8).collect();
    let encoded = encode_blocks(&data);
    assert_eq!(&encoded[..RS_DATA_PER_BLOCK], &data[..]);
    // The parity is not all zero for non-zero data.
    assert!(encoded[RS_DATA_PER_BLOCK..].iter().any(|&b| b != 0));
}

#[test]
fn decode_rejects_partial_blocks() {
    assert_eq!(decode_blocks(&[0u8; 10]), Err(EccError::InvalidLength));
    assert_eq!(decode_blocks(&vec![0u8; RS_BLOCK_SIZE + 1]), Err(EccError::InvalidLength));
}

#[test]
fn decode_fails_beyond_correction_capacity() {
    let data: Vec<u8> = (0..RS_DATA_PER_BLOCK).map(|i| i as u8).collect();
    let mut encoded = encode_blocks(&data);
    for i in 0..RS_BLOCK_SIZE {
        encoded[i] ^= (i as u8).wrapping_mul(29).wrapping_add(1);
    }
    assert_eq!(decode_blocks(&encoded), Err(EccError::DecodeFailure));
}

#[test]
fn empty_input_decodes_to_empty() {
    assert_eq!(encode_blocks(&[]), Vec::<u8>::new());
    assert_eq!(decode_blocks(&[]), Ok(Vec::new()));
}

#[test]
fn corrects_up_to_32_errors_in_every_block() {
    let n = 3;
    let data: Vec<u8> = (0..n * RS_DATA_PER_BLOCK).map(|i| (i * 13 % 256) as u8).collect();
    let mut received = encode_blocks(&data);
    for b in 0..n {
        for k in 0..32 {
            received[b * RS_BLOCK_SIZE + k * 7 + b] ^= 0x3C;
        }
    }
    let decoded = decode_blocks(&received).unwrap();
    assert_eq!(decoded.len(), n * RS_DATA_PER_BLOCK);
    assert_eq!(decoded, data);
}

#[test]
fn codewords_are_laid_out_block_by_block() {
    let a: Vec<u8> = (0..RS_DATA_PER_BLOCK).map(|i| (i * 3) as u8).collect();
    let b: Vec<u8> = (0..RS_DATA_PER_BLOCK).map(|i| (i * 5 + 1) as u8).collect();
    let mut both = a.clone();
    both.extend_from_slice(&b);
    let enc = encode_blocks(&both);
    assert_eq!(&enc[..RS_BLOCK_SIZE], &encode_blocks(&a)[..]);
    assert_eq!(&enc[RS_BLOCK_SIZE..], &encode_blocks(&b)[..]);
}
