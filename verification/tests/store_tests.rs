use opening_book::stats::{combine, MoveStats, PositionStats};
use opening_book::store::Database;

fn move_stat(uci: &str, w: u32, b: u32, d: u32) -> MoveStats {
    MoveStats { move_uci: uci.to_string(), white_wins: w, black_wins: b, draws: d }
}

#[test]
fn test_db_write_read_flow() {
    let mut database = Database::temporary().unwrap();

    let dummy_hash: u64 = 123456789;
    let dummy_stats = PositionStats {
        total_games: 10,
        moves: vec![move_stat("e2e4", 4, 1, 5)],
    };

    database.insert_stats(dummy_hash, &dummy_stats).expect("Failed to write");

    let result = database.get_stats(dummy_hash).expect("Failed to read");
    assert_eq!(result, Some(dummy_stats));

    let missing = database.get_stats(99999).expect("Failed to read missing");
    assert!(missing.is_none());
}

#[test]
fn get_on_never_written_identity_is_none() {
    let database = Database::temporary().unwrap();
    assert_eq!(database.get_stats(42).unwrap(), None);
    assert_eq!(database.get_stats(u64::MAX).unwrap(), None);
}

#[test]
fn merge_put_on_fresh_key_reads_back_exactly() {
    let mut database = Database::temporary().unwrap();
    let delta = PositionStats {
        total_games: 3,
        moves: vec![move_stat("e2e4", 1, 1, 0), move_stat("d2d4", 0, 0, 1)],
    };
    database.merge_put(7, &delta).unwrap();
    assert_eq!(database.get_stats(7).unwrap(), Some(delta));
}

#[test]
fn merge_put_twice_equals_merge_of_combined() {
    let d1 = PositionStats {
        total_games: 2,
        moves: vec![move_stat("e2e4", 1, 0, 0), move_stat("g1f3", 0, 1, 0)],
    };
    let d2 = PositionStats {
        total_games: 3,
        moves: vec![move_stat("e2e4", 0, 2, 0), move_stat("c2c4", 1, 0, 0)],
    };

    let mut twice = Database::temporary().unwrap();
    twice.merge_put(11, &d1).unwrap();
    twice.merge_put(11, &d2).unwrap();

    let mut once = Database::temporary().unwrap();
    let dc = combine(&d1, &d2);
    once.merge_put(11, &dc).unwrap();

    assert_eq!(twice.get_stats(11).unwrap(), once.get_stats(11).unwrap());
}

#[test]
fn merge_put_accumulates_instead_of_overwriting() {
    let mut database = Database::temporary().unwrap();
    database.merge_put(5, &PositionStats { total_games: 1, moves: vec![move_stat("e2e4", 1, 0, 0)] }).unwrap();
    database.merge_put(5, &PositionStats { total_games: 1, moves: vec![move_stat("e2e4", 0, 1, 0)] }).unwrap();

    let merged = database.get_stats(5).unwrap().unwrap();
    assert_eq!(merged.total_games, 2);
    assert_eq!(merged.moves.len(), 1);
    assert_eq!(merged.moves[0].move_uci, "e2e4");
    assert_eq!(merged.moves[0].white_wins, 1);
    assert_eq!(merged.moves[0].black_wins, 1);
    assert_eq!(merged.moves[0].draws, 0);
}

#[test]
fn insert_stats_overwrites_wholesale() {
    let mut database = Database::temporary().unwrap();
    let first = PositionStats { total_games: 5, moves: vec![move_stat("e2e4", 5, 0, 0)] };
    let second = PositionStats { total_games: 1, moves: vec![move_stat("d2d4", 0, 1, 0)] };
    database.insert_stats(8, &first).unwrap();
    database.insert_stats(8, &second).unwrap();
    assert_eq!(database.get_stats(8).unwrap(), Some(second));
}

#[test]
fn merge_put_keeps_other_keys() {
    let mut database = Database::temporary().unwrap();
    let a = PositionStats { total_games: 1, moves: vec![move_stat("e2e4", 1, 0, 0)] };
    let b = PositionStats { total_games: 1, moves: vec![move_stat("d2d4", 0, 1, 0)] };
    database.merge_put(1, &a).unwrap();
    database.merge_put(2, &b).unwrap();
    assert_eq!(database.get_stats(1).unwrap(), Some(a));
    assert_eq!(database.get_stats(2).unwrap(), Some(b));
}

#[test]
fn flush_keeps_records() {
    let mut database = Database::temporary().unwrap();
    let a = PositionStats { total_games: 4, moves: vec![move_stat("e7e5", 2, 1, 1)] };
    database.insert_stats(9, &a).unwrap();
    database.flush().unwrap();
    assert_eq!(database.get_stats(9).unwrap(), Some(a));
}

#[test]
fn close_flushes_and_releases() {
    let mut database = Database::temporary().unwrap();
    let a = PositionStats { total_games: 1, moves: vec![move_stat("e2e4", 1, 0, 0)] };
    database.merge_put(3, &a).unwrap();
    database.close().unwrap();
}

#[test]
fn combine_saturates_counters() {
    let a = PositionStats { total_games: u32::MAX, moves: vec![move_stat("e2e4", u32::MAX, 0, 0)] };
    let b = PositionStats { total_games: 1, moves: vec![move_stat("e2e4", 5, 1, 0)] };
    let c = combine(&a, &b);
    assert_eq!(c.total_games, u32::MAX);
    assert_eq!(c.moves[0].white_wins, u32::MAX);
    assert_eq!(c.moves[0].black_wins, 1);
}

#[test]
fn combine_unions_move_entries() {
    let a = PositionStats { total_games: 1, moves: vec![move_stat("e2e4", 1, 0, 0)] };
    let b = PositionStats { total_games: 2, moves: vec![move_stat("d2d4", 0, 1, 1)] };
    let c = combine(&a, &b);
    assert_eq!(c.total_games, 3);
    assert_eq!(c.moves.len(), 2);
    assert_eq!(c.moves[0].move_uci, "e2e4");
    assert_eq!(c.moves[1].move_uci, "d2d4");
}
