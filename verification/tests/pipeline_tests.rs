use opening_book::hasher::{hash_board, starting_board, toggle_piece, Board, NO_EN_PASSANT};
use opening_book::pipeline::Ingestor;
use opening_book::stats::GameOutcome;
use opening_book::store::Database;

/// The position after 1.e4, as the rules engine would hand it back.
fn board_after_e4() -> Board {
    let mut b = starting_board();
    b.squares[12] = 0; // e2 emptied
    b.squares[28] = 1; // white pawn on e4
    b.white_to_move = false;
    b.en_passant = 20; // e3
    b
}

/// The position after 1.d4.
fn board_after_d4() -> Board {
    let mut b = starting_board();
    b.squares[11] = 0;
    b.squares[27] = 1;
    b.white_to_move = false;
    b.en_passant = 19;
    b
}

#[test]
fn scenario_one_game_records_position() {
    let mut db = Database::temporary().unwrap();
    let mut ingest = Ingestor::new();
    let start_hash = hash_board(&starting_board());

    ingest.begin_game();
    ingest.on_legal_move(board_after_e4(), "e2e4".to_string());
    ingest.end_game(GameOutcome::WhiteWin);
    ingest.flush(&mut db).unwrap();

    let stats = db.get_stats(start_hash).unwrap().unwrap();
    assert_eq!(stats.total_games, 1);
    assert_eq!(stats.moves.len(), 1);
    assert_eq!(stats.moves[0].move_uci, "e2e4");
    assert_eq!(stats.moves[0].white_wins, 1);
    assert_eq!(stats.moves[0].black_wins, 0);
    assert_eq!(stats.moves[0].draws, 0);
}

#[test]
fn scenario_second_game_merges_not_overwrites() {
    let mut db = Database::temporary().unwrap();
    let mut ingest = Ingestor::new();
    let start_hash = hash_board(&starting_board());

    ingest.begin_game();
    ingest.on_legal_move(board_after_e4(), "e2e4".to_string());
    ingest.end_game(GameOutcome::WhiteWin);
    ingest.flush(&mut db).unwrap();

    ingest.begin_game();
    ingest.on_legal_move(board_after_e4(), "e2e4".to_string());
    ingest.end_game(GameOutcome::BlackWin);
    ingest.flush(&mut db).unwrap();

    let stats = db.get_stats(start_hash).unwrap().unwrap();
    assert_eq!(stats.total_games, 2);
    assert_eq!(stats.moves.len(), 1);
    assert_eq!(stats.moves[0].move_uci, "e2e4");
    assert_eq!(stats.moves[0].white_wins, 1);
    assert_eq!(stats.moves[0].black_wins, 1);
    assert_eq!(stats.moves[0].draws, 0);
}

#[test]
fn scenario_illegal_move_discards_only_that_game() {
    let mut db = Database::temporary().unwrap();
    let mut ingest = Ingestor::new();
    let start_hash = hash_board(&starting_board());
    let e4_hash = hash_board(&board_after_e4());

    // First game: one legal move, then a normal end.
    ingest.begin_game();
    ingest.on_legal_move(board_after_e4(), "e2e4".to_string());
    ingest.end_game(GameOutcome::WhiteWin);

    // Second game: two legal moves, then an illegal token; the game is
    // discarded in full, and later events of it are ignored.
    ingest.begin_game();
    ingest.on_legal_move(board_after_e4(), "e2e4".to_string());
    let mut after_e5 = board_after_e4();
    after_e5.squares[52] = 0;
    after_e5.squares[36] = 7;
    after_e5.white_to_move = true;
    after_e5.en_passant = 44;
    ingest.on_legal_move(after_e5, "e7e5".to_string());
    ingest.on_illegal_move();
    ingest.on_legal_move(board_after_d4(), "d2d4".to_string());
    ingest.end_game(GameOutcome::BlackWin);

    ingest.flush(&mut db).unwrap();

    // Only the first game's single visited pair is recorded.
    let stats = db.get_stats(start_hash).unwrap().unwrap();
    assert_eq!(stats.total_games, 1);
    assert_eq!(stats.moves.len(), 1);
    assert_eq!(stats.moves[0].white_wins, 1);
    assert_eq!(stats.moves[0].black_wins, 0);

    // The position the discarded game reached is absent.
    assert_eq!(db.get_stats(e4_hash).unwrap(), None);
}

#[test]
fn unknown_outcome_counts_traversal_only() {
    let mut db = Database::temporary().unwrap();
    let mut ingest = Ingestor::new();
    let start_hash = hash_board(&starting_board());

    ingest.begin_game();
    ingest.on_legal_move(board_after_e4(), "e2e4".to_string());
    ingest.end_game(GameOutcome::Unknown);
    ingest.flush(&mut db).unwrap();

    let stats = db.get_stats(start_hash).unwrap().unwrap();
    assert_eq!(stats.total_games, 1);
    assert_eq!(stats.moves[0].white_wins, 0);
    assert_eq!(stats.moves[0].black_wins, 0);
    assert_eq!(stats.moves[0].draws, 0);
}

#[test]
fn draw_outcome_counts_draw() {
    let mut db = Database::temporary().unwrap();
    let mut ingest = Ingestor::new();
    let start_hash = hash_board(&starting_board());

    ingest.begin_game();
    ingest.on_legal_move(board_after_e4(), "e2e4".to_string());
    ingest.end_game(GameOutcome::Draw);
    ingest.flush(&mut db).unwrap();

    let stats = db.get_stats(start_hash).unwrap().unwrap();
    assert_eq!(stats.moves[0].draws, 1);
}

#[test]
fn transposition_same_state_same_identity() {
    // Reach the same board state along two different routes.
    let mut via_first = starting_board();
    via_first.squares[12] = 0;
    via_first.squares[28] = 1;
    via_first.squares[52] = 0;
    via_first.squares[36] = 7;

    let mut via_second = starting_board();
    via_second.squares[52] = 0;
    via_second.squares[36] = 7;
    via_second.squares[12] = 0;
    via_second.squares[28] = 1;

    assert_eq!(hash_board(&via_first), hash_board(&via_second));
}

#[test]
fn toggled_features_commute_and_cancel() {
    let h: u64 = hash_board(&starting_board());
    let one_order = toggle_piece(toggle_piece(h, 1, 12), 7, 52);
    let other_order = toggle_piece(toggle_piece(h, 7, 52), 1, 12);
    assert_eq!(one_order, other_order);
    assert_eq!(toggle_piece(toggle_piece(h, 3, 30), 3, 30), h);
}

#[test]
fn incremental_toggle_matches_full_rehash() {
    // Moving the e2 pawn to e4 is two toggles of white-pawn features.
    let start = starting_board();
    let h = hash_board(&start);
    let stepped = toggle_piece(toggle_piece(h, 1, 12), 1, 28);

    let mut moved = starting_board();
    moved.squares[12] = 0;
    moved.squares[28] = 1;
    assert_eq!(stepped, hash_board(&moved));
}

#[test]
fn distinct_states_differ_in_identity() {
    let start = starting_board();
    let mut other = starting_board();
    other.white_to_move = false;
    assert_ne!(hash_board(&start), hash_board(&other));

    let mut no_castle = starting_board();
    no_castle.castling = 0;
    assert_ne!(hash_board(&start), hash_board(&no_castle));

    let mut ep = starting_board();
    ep.en_passant = 20;
    assert_ne!(hash_board(&start), hash_board(&ep));
    assert_eq!(ep.en_passant != NO_EN_PASSANT, true);
}
