use lzss::expand;
use lzss::ExpandError;

// A stream that ends right after a match token's first byte must be
// reported as truncated, not misread.
#[test]
fn truncated_after_match_first_byte() {
    let packed = vec![0x00u8, 0x20];
    assert_eq!(expand(&packed), Err(ExpandError::Truncated));
}

// A stream that ends right after a flag byte announcing a literal.
#[test]
fn truncated_before_literal() {
    let packed = vec![0x80u8];
    assert_eq!(expand(&packed), Err(ExpandError::Truncated));
}

// A stream whose flag byte announces a match but holds no match bytes.
#[test]
fn truncated_before_match() {
    let packed = vec![0x00u8];
    assert_eq!(expand(&packed), Err(ExpandError::Truncated));
}

// A match whose distance reaches behind the start of the output.
#[test]
fn distance_beyond_output() {
    // Flag 0x00: first token is a match; length 3, distance 6, but no
    // output exists yet.
    let packed = vec![0x00u8, 0x00, 0x05];
    assert_eq!(expand(&packed), Err(ExpandError::BadDistance));
}

// A valid literal followed by a match reaching one byte too far back.
#[test]
fn distance_one_too_far() {
    // Flag 0x80: literal 0x42, then a match of length 3 at distance 2
    // with only one byte of output produced.
    let packed = vec![0x80u8, 0x42, 0x00, 0x01];
    assert_eq!(expand(&packed), Err(ExpandError::BadDistance));
}
