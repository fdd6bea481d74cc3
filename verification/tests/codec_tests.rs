use opening_book::codec::{decode, encode};
use opening_book::stats::{MoveStats, PositionStats};

fn move_stat(uci: &str, w: u32, b: u32, d: u32) -> MoveStats {
    MoveStats { move_uci: uci.to_string(), white_wins: w, black_wins: b, draws: d }
}

#[test]
fn round_trip_is_exact() {
    let stats = PositionStats {
        total_games: 1234,
        moves: vec![
            move_stat("e2e4", 7, 3, 2),
            move_stat("d2d4", 0, 0, 0),
            move_stat("g1f3", 1, 0, u32::MAX),
        ],
    };
    let bytes = encode(&stats);
    assert_eq!(decode(&bytes), Some(stats));
}

#[test]
fn round_trip_of_empty_record() {
    let stats = PositionStats { total_games: 0, moves: vec![] };
    let bytes = encode(&stats);
    assert_eq!(decode(&bytes), Some(stats));
}

#[test]
fn encode_produces_exact_bytes() {
    let stats = PositionStats { total_games: 2, moves: vec![move_stat("ab", 1, 2, 3)] };
    let bytes = encode(&stats);
    let expected: Vec<u8> = vec![
        1, // version
        2, 0, 0, 0, // total games, little endian
        1, 0, 0, 0, 0, 0, 0, 0, // one move entry
        2, 0, 0, 0, 0, 0, 0, 0, // notation byte length
        b'a', b'b', // notation
        1, 0, 0, 0, // white wins
        2, 0, 0, 0, // black wins
        3, 0, 0, 0, // draws
    ];
    assert_eq!(bytes, expected);
}

#[test]
fn decode_rejects_garbage() {
    assert_eq!(decode(&vec![]), None);
    assert_eq!(decode(&vec![0xFF, 0x00, 0x12]), None);
    assert_eq!(decode(&vec![0xFF; 64]), None);
}

#[test]
fn decode_rejects_wrong_version() {
    let stats = PositionStats { total_games: 1, moves: vec![] };
    let mut bytes = encode(&stats);
    bytes[0] = 2;
    assert_eq!(decode(&bytes), None);
}

#[test]
fn decode_rejects_truncated_record() {
    let stats = PositionStats { total_games: 9, moves: vec![move_stat("e2e4", 1, 0, 0)] };
    let mut bytes = encode(&stats);
    bytes.pop();
    assert_eq!(decode(&bytes), None);
}

#[test]
fn decode_rejects_trailing_bytes() {
    let stats = PositionStats { total_games: 9, moves: vec![move_stat("e2e4", 1, 0, 0)] };
    let mut bytes = encode(&stats);
    bytes.push(0);
    assert_eq!(decode(&bytes), None);
}

#[test]
fn decode_rejects_duplicate_move_entries() {
    let stats = PositionStats {
        total_games: 2,
        moves: vec![move_stat("e2e4", 1, 0, 0), move_stat("e2e4", 0, 1, 0)],
    };
    let bytes = encode(&stats);
    assert_eq!(decode(&bytes), None);
}

#[test]
fn round_trip_keeps_non_ascii_notation() {
    let stats = PositionStats { total_games: 1, moves: vec![move_stat("é2é4", 1, 0, 0)] };
    let bytes = encode(&stats);
    assert_eq!(decode(&bytes), Some(stats));
}
