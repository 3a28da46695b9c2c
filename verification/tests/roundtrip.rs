use lzss::compress;
use lzss::expand;

#[test]
fn empty_compresses_to_empty() {
    let data: Vec<u8> = Vec::new();
    assert_eq!(compress(&data), Vec::<u8>::new());
}

#[test]
fn empty_expands_to_empty() {
    let data: Vec<u8> = Vec::new();
    assert_eq!(expand(&data), Ok(Vec::<u8>::new()));
}

#[test]
fn round_trip_single_byte() {
    let data = vec![0x5Au8];
    assert_eq!(expand(&compress(&data)), Ok(data));
}

#[test]
fn round_trip_two_bytes() {
    let data = vec![0x10u8, 0x10];
    assert_eq!(expand(&compress(&data)), Ok(data));
}

#[test]
fn round_trip_text_with_repeats() {
    let data = b"the quick brown fox jumps over the lazy dog; the quick brown fox again".to_vec();
    assert_eq!(expand(&compress(&data)), Ok(data));
}

#[test]
fn round_trip_all_byte_values() {
    let mut data: Vec<u8> = Vec::new();
    for r in 0..4 {
        for b in 0..256 {
            data.push((b as u8).wrapping_add(r));
        }
    }
    assert_eq!(expand(&compress(&data)), Ok(data));
}

#[test]
fn round_trip_long_run() {
    let data = vec![0x41u8; 100];
    assert_eq!(expand(&compress(&data)), Ok(data));
}

#[test]
fn round_trip_run_of_two() {
    // A run of exactly 2 stays cheaper as literals; the stream must
    // still decode to the input.
    let data = vec![7u8, 7];
    let packed = compress(&data);
    assert_eq!(packed, vec![0xC0, 7, 7]);
    assert_eq!(expand(&packed), Ok(data));
}
