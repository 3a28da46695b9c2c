use lzss::compress;
use lzss::expand;

// "ABABABAB": the encoder literal-codes the first three bytes (the
// predecessor at position 0 is dropped by the index), then one match
// of length 5 at distance 2. Flag byte 0b1110_0000.
#[test]
fn abab_exact_stream() {
    let data = b"ABABABAB".to_vec();
    let packed = compress(&data);
    assert_eq!(packed, vec![0xE0, 0x41, 0x42, 0x41, 0x20, 0x01]);
    assert_eq!(expand(&packed), Ok(data));
}

// A run of 20 identical bytes: two literals, then a match of length 18
// at distance 1, decoded by an overlapping self-copy.
#[test]
fn overlapping_self_copy() {
    let data = vec![0x41u8; 20];
    let packed = compress(&data);
    assert_eq!(packed, vec![0xC0, 0x41, 0x41, 0xF0, 0x00]);
    assert_eq!(expand(&packed), Ok(data));
}

// Eight distinct literals fill one block behind one all-ones flag byte.
#[test]
fn one_full_literal_block() {
    let data: Vec<u8> = (100..108).collect();
    let packed = compress(&data);
    let mut wanted = vec![0xFFu8];
    wanted.extend_from_slice(&data);
    assert_eq!(packed, wanted);
    assert_eq!(expand(&packed), Ok(data));
}

// Nine distinct literals: a full block, then a one-token block whose
// flag byte has only its most significant bit set.
#[test]
fn nine_literals_two_blocks() {
    let data: Vec<u8> = (100..109).collect();
    let packed = compress(&data);
    let mut wanted = vec![0xFFu8];
    wanted.extend_from_slice(&data[0..8]);
    wanted.push(0x80);
    wanted.push(data[8]);
    assert_eq!(packed, wanted);
    assert_eq!(expand(&packed), Ok(data));
}

// 5000 bytes in which no 2-byte pair ever repeats: every token is a
// literal, so the output is the input plus ceil(5000 / 8) flag bytes.
#[test]
fn noise_is_all_literals() {
    let mut data: Vec<u8> = Vec::new();
    for k in 0..2500usize {
        data.push((244 + k / 244) as u8);
        data.push((k % 244) as u8);
    }
    assert_eq!(data.len(), 5000);
    let packed = compress(&data);
    assert_eq!(packed.len(), 5000 + 625);
    assert_eq!(packed[0], 0xFF);
    assert_eq!(expand(&packed), Ok(data));
}
