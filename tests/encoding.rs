use gamma_chess::chess::{Board, Piece, PieceRole};
use gamma_chess::encoder::{
    board_squares, board_to_tensor, move_to_tensor, piece_plane, process_games, Dataset,
    DatasetError, EncodeError,
};
use gamma_chess::proto::{
    dataset_from_games, deserialize_from_protobuf, encode_chunk, encode_game,
    serialize_to_protobuf, ChessDataSet, ChessGame, DecodeError,
};

fn moves(ms: &[&str]) -> Vec<String> {
    ms.iter().map(|m| m.to_string()).collect()
}

fn sample() -> ChessDataSet {
    ChessDataSet {
        games: vec![
            ChessGame { moves: moves(&["e2e4", "e7e5", "g1f3"]) },
            ChessGame { moves: vec![] },
            ChessGame { moves: moves(&["d2d4", "é", &"x".repeat(300)]) },
        ],
    }
}

#[test]
fn plane_order_is_fixed() {
    let white_pawn = Piece { role: PieceRole::Pawn, white: true };
    let black_king = Piece { role: PieceRole::King, white: false };
    let white_queen = Piece { role: PieceRole::Queen, white: true };
    let black_knight = Piece { role: PieceRole::Knight, white: false };
    assert_eq!(piece_plane(white_pawn), 0);
    assert_eq!(piece_plane(white_queen), 4);
    assert_eq!(piece_plane(black_knight), 7);
    assert_eq!(piece_plane(black_king), 11);
}

#[test]
fn start_position_tensor_is_one_hot() {
    let squares = board_squares(&Board::start());
    assert_eq!(squares.len(), 64);
    assert_eq!(squares[0], Some(Piece { role: PieceRole::Rook, white: true }));
    assert_eq!(squares[60], Some(Piece { role: PieceRole::King, white: false }));
    assert_eq!(squares[27], None);
    let t = board_to_tensor(&squares);
    assert_eq!(t.len(), 768);
    assert_eq!(t.iter().filter(|&&c| c == 1).count(), 32);
    assert!(t.iter().all(|&c| c <= 1));
    // white rook on a1: plane 3, square 0
    assert_eq!(t[3 * 64], 1);
    // black king on e8: plane 11, square 60
    assert_eq!(t[11 * 64 + 60], 1);
    // white pawns on rank 2
    for file in 0..8 {
        assert_eq!(t[8 + file], 1);
    }
    // each occupied square has exactly one plane set
    for sq in 0..64 {
        let set = (0..12).filter(|p| t[p * 64 + sq] == 1).count();
        assert_eq!(set, if squares[sq].is_some() { 1 } else { 0 });
    }
}

#[test]
fn move_tensor_is_one_hot() {
    let m = move_to_tensor(12, 28);
    assert_eq!(m.len(), 4096);
    assert_eq!(m.iter().filter(|&&c| c == 1).count(), 1);
    assert_eq!(m[12 * 64 + 28], 1);
    let last = move_to_tensor(63, 63);
    assert_eq!(last[4095], 1);
}

#[test]
fn games_encode_to_aligned_pairs() {
    let games = vec![
        ChessGame { moves: moves(&["e2e4", "e7e5"]) },
        ChessGame { moves: moves(&["g1f3"]) },
    ];
    let ds = process_games(&games).unwrap();
    assert_eq!(ds.len(), 3);
    assert_eq!(ds.positions.len(), ds.moves.len());
    let start = board_to_tensor(&board_squares(&Board::start()));
    assert_eq!(ds.positions[0], start);
    assert_eq!(ds.positions[2], start);
    assert_eq!(ds.moves[0], move_to_tensor(12, 28));
    assert_eq!(ds.moves[1], move_to_tensor(52, 36));
    assert_eq!(ds.moves[2], move_to_tensor(6, 21));
    // after e2e4 the pawn stands on e4 (square 28), plane 0
    assert_eq!(ds.positions[1][28], 1);
    assert_eq!(ds.positions[1][12], 0);
}

#[test]
fn castling_move_targets_the_rook_square() {
    let games = vec![ChessGame {
        moves: moves(&["e2e4", "e7e5", "g1f3", "b8c6", "f1c4", "f8c5", "e1g1"]),
    }];
    let ds = process_games(&games).unwrap();
    assert_eq!(ds.len(), 7);
    assert_eq!(ds.moves[6], move_to_tensor(4, 7));
}

#[test]
fn encoding_errors_name_the_move() {
    let bad_text = vec![
        ChessGame { moves: moves(&["e2e4"]) },
        ChessGame { moves: moves(&["d2d4", "zz"]) },
    ];
    assert_eq!(
        process_games(&bad_text).err(),
        Some(EncodeError::InvalidUci { game: 1, ply: 1 })
    );
    let no_piece = vec![ChessGame { moves: moves(&["e3e4"]) }];
    assert_eq!(
        process_games(&no_piece).err(),
        Some(EncodeError::InvalidMove { game: 0, ply: 0 })
    );
    let illegal = vec![ChessGame { moves: moves(&["e2e4", "e7e5", "e1e3"]) }];
    assert_eq!(
        process_games(&illegal).err(),
        Some(EncodeError::InvalidMove { game: 0, ply: 2 })
    );
    assert_eq!(process_games(&Vec::new()).unwrap().len(), 0);
}

#[test]
fn dataset_round_trips_through_bytes() {
    let ds = sample();
    let bytes = serialize_to_protobuf(&ds);
    let back = deserialize_from_protobuf(&bytes).unwrap();
    assert_eq!(back, ds);
    let t1 = process_games(&vec![ChessGame { moves: ds.games[0].moves.clone() }]).unwrap();
    let t2 = process_games(&vec![ChessGame { moves: back.games[0].moves.clone() }]).unwrap();
    assert_eq!(t1.positions, t2.positions);
    assert_eq!(t1.moves, t2.moves);
}

#[test]
fn wire_format_bytes() {
    let game = encode_game(&moves(&["e2e4"]));
    assert_eq!(game, vec![0x0A, 4, b'e', b'2', b'e', b'4']);
    let ds = ChessDataSet { games: vec![ChessGame { moves: moves(&["e2e4"]) }] };
    assert_eq!(
        serialize_to_protobuf(&ds),
        vec![0x0A, 6, 0x0A, 4, b'e', b'2', b'e', b'4']
    );
    // a body of 300 bytes takes a two-byte length
    let long = encode_game(&vec!["x".repeat(300)]);
    assert_eq!(&long[..3], &[0x0A, 0xAC, 0x02]);
    assert_eq!(long.len(), 303);
    assert_eq!(
        serialize_to_protobuf(&ChessDataSet { games: vec![] }),
        Vec::<u8>::new()
    );
}

#[test]
fn decoder_skips_unknown_fields_and_refuses_bad_input() {
    // field 2 (varint), field 3 (fixed64), field 4 (bytes), field 5 (fixed32), then a game
    let mut bytes = vec![0x10, 0x96, 0x01];
    bytes.extend([0x19, 1, 2, 3, 4, 5, 6, 7, 8]);
    bytes.extend([0x22, 2, 0xFF, 0xFF]);
    bytes.extend([0x2D, 1, 2, 3, 4]);
    bytes.extend([0x0A, 6, 0x0A, 4, b'e', b'2', b'e', b'4']);
    let ds = deserialize_from_protobuf(&bytes).unwrap();
    assert_eq!(ds.games, vec![ChessGame { moves: moves(&["e2e4"]) }]);

    assert_eq!(deserialize_from_protobuf(&[]).unwrap().games.len(), 0);
    let malformed = Err(DecodeError::Malformed);
    // length runs past the end
    assert_eq!(deserialize_from_protobuf(&[0x0A, 5, 0x0A]), malformed);
    // games field with a varint wire type
    assert_eq!(deserialize_from_protobuf(&[0x08, 1]), malformed);
    // a group
    assert_eq!(deserialize_from_protobuf(&[0x1B, 0x1C]), malformed);
    // field number 0
    assert_eq!(deserialize_from_protobuf(&[0x02, 0]), malformed);
    // move that is not UTF-8
    assert_eq!(deserialize_from_protobuf(&[0x0A, 3, 0x0A, 1, 0xFF]), malformed);
    // varint of eleven bytes
    let mut long = vec![0x10];
    long.extend([0x80; 10]);
    long.push(0);
    assert_eq!(deserialize_from_protobuf(&long), malformed);
}

#[test]
fn chunk_from_games_and_back() {
    let games = vec![moves(&["e2e4", "e7e5"]), moves(&["c2c4"])];
    let ds = dataset_from_games(&games);
    assert_eq!(ds.games.len(), 2);
    assert_eq!(ds.games[1].moves, moves(&["c2c4"]));
    let bytes = encode_chunk(&games);
    assert_eq!(bytes, serialize_to_protobuf(&ds));
    assert_eq!(bytes, encode_chunk(&games));
    let tensors = Dataset::new(&bytes).unwrap();
    assert_eq!(tensors.len(), 3);
    assert_eq!(
        Dataset::new(&[0x0A]).err(),
        Some(DatasetError::Decode(DecodeError::Malformed))
    );
    let bad = serialize_to_protobuf(&ChessDataSet {
        games: vec![ChessGame { moves: moves(&["q9"]) }],
    });
    assert_eq!(
        Dataset::new(&bad).err(),
        Some(DatasetError::Encode(EncodeError::InvalidUci { game: 0, ply: 0 }))
    );
}

#[test]
fn board_plays_moves_and_reports_squares() {
    let mut b = Board::start();
    assert_eq!(b.play_uci("e2e4"), Some((12, 28)));
    assert_eq!(b.play_uci("e2e4"), None);
    assert_eq!(b.play_uci("zz"), None);
    assert_eq!(b.play_san("Nf6"), Some("g8f6".to_string()));
    assert_eq!(b.play_san("Ke3"), None);
    assert_eq!(b.piece_on(28), Some((1, true)));
    assert_eq!(b.piece_on(45), Some((2, false)));
    assert_eq!(b.piece_on(12), None);
    let squares = board_squares(&b);
    assert_eq!(squares[28], Some(Piece { role: PieceRole::Pawn, white: true }));
    assert_eq!(squares[45], Some(Piece { role: PieceRole::Knight, white: false }));
}

#[test]
fn empty_chunk_loads_as_empty_dataset() {
    let ds = Dataset::new(&[]).unwrap();
    assert_eq!(ds.len(), 0);
    assert!(ds.moves.is_empty());
}

#[test]
fn concatenated_games_encode_to_concatenated_pairs() {
    let a = vec![ChessGame { moves: moves(&["e2e4", "c7c5"]) }];
    let b = vec![ChessGame { moves: moves(&["d2d4"]) }, ChessGame { moves: moves(&["g1f3"]) }];
    let mut ab = Vec::new();
    for g in a.iter().chain(b.iter()) {
        ab.push(ChessGame { moves: g.moves.clone() });
    }
    let ea = process_games(&a).unwrap();
    let eb = process_games(&b).unwrap();
    let eab = process_games(&ab).unwrap();
    let mut positions = ea.positions.clone();
    positions.extend(eb.positions.clone());
    let mut mvs = ea.moves.clone();
    mvs.extend(eb.moves.clone());
    assert_eq!(eab.positions, positions);
    assert_eq!(eab.moves, mvs);
}

#[test]
fn built_chunk_holds_the_accepted_games() {
    let games = vec![moves(&["e4", "e5"]), moves(&["e4", "Ke3"]), moves(&["d4"])];
    let bytes = gamma_chess::proto::build_chunk(&games, 10);
    let back = deserialize_from_protobuf(&bytes).unwrap();
    assert_eq!(
        back.games,
        vec![
            ChessGame { moves: moves(&["e2e4", "e7e5"]) },
            ChessGame { moves: moves(&["d2d4"]) }
        ]
    );
    assert_eq!(bytes, gamma_chess::proto::build_chunk(&games, 10));
}
