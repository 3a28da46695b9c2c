use lzss::best_match;
use lzss::link_matches;
use lzss::match_length;

#[test]
fn links_of_short_run() {
    // Position 1's only predecessor is position 0, which the index
    // stores as "none"; position 2 links back 1 to position 1; the
    // last position never gets a link.
    let data = vec![0x41u8, 0x41, 0x41, 0x41];
    assert_eq!(link_matches(&data), vec![0, 0, 1, 0]);
}

#[test]
fn links_empty_and_single() {
    assert_eq!(link_matches(&[]), Vec::<usize>::new());
    assert_eq!(link_matches(&[9u8]), vec![0]);
}

#[test]
fn links_of_alternating() {
    // "ABABAB": "AB" at 2 has predecessor 0 (dropped as "none"),
    // "BA" at 3 links back 2, "AB" at 4 links back 2.
    let data = b"ABABAB".to_vec();
    assert_eq!(link_matches(&data), vec![0, 0, 0, 2, 2, 0]);
}

#[test]
fn match_length_caps_at_buffer_end() {
    let data = vec![1u8, 2, 3, 1, 2, 3, 9];
    assert_eq!(match_length(&data, 0, 3), 3);
}

#[test]
fn match_length_caps_at_18() {
    let data = vec![7u8; 40];
    assert_eq!(match_length(&data, 0, 20), 18);
}

#[test]
fn best_match_alternating() {
    // At position 3 of "ABABABAB" the finder reaches position 1 and
    // matches "BABAB": distance 2, length 5.
    let data = b"ABABABAB".to_vec();
    let offsets = link_matches(&data);
    assert_eq!(best_match(&data, &offsets, 3), (2, 5));
}

#[test]
fn best_match_none() {
    let data = b"ABCDEF".to_vec();
    let offsets = link_matches(&data);
    assert_eq!(best_match(&data, &offsets, 2), (0, 0));
}

#[test]
fn best_match_prefers_nearest_on_tie() {
    // "XYZ" occurs at 0, 4 and 8; from position 8 both earlier copies
    // give length 3, and the nearer one (distance 4) wins.
    let data = b"XYZaXYZbXYZ".to_vec();
    let offsets = link_matches(&data);
    assert_eq!(best_match(&data, &offsets, 8), (4, 3));
}
