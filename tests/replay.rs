use gamma_chess::replay::{replay_games, Replayer};
use pgn_reader::{BufferedReader, SanPlus, Visitor};
use std::io::Cursor;

/// Feeds the library's replayer from the PGN reader.
struct ReplayVisitor {
    replayer: Replayer,
}

impl Visitor for ReplayVisitor {
    type Result = ();

    fn begin_game(&mut self) {
        self.replayer.begin_game();
    }

    fn san(&mut self, san_plus: SanPlus) {
        self.replayer.san(&san_plus.san.to_string());
    }

    fn end_game(&mut self) {
        self.replayer.end_game();
    }
}

fn game(tokens: &[&str]) -> Vec<String> {
    tokens.iter().map(|t| t.to_string()).collect()
}

fn legal_game() -> Vec<String> {
    game(&["e4", "e5", "Nf3", "Nc6"])
}

fn illegal_game() -> Vec<String> {
    game(&["e4", "e5", "Ke3"])
}

fn unparsable_game() -> Vec<String> {
    game(&["d4", "Zz9", "d5"])
}

#[test]
fn test_my_visitor() {
    let pgn_data = r#"
        [Event "Rated Classical game"]
        [Site "https://lichess.org/XDQeUk6j"]
        [White "davidtrolero395"]
        [Black "OleRedBeard"]
        [Result "0-1"]
        [UTCDate "2016.05.15"]
        [UTCTime "01:05:14"]
        [WhiteElo "1050"]
        [BlackElo "1297"]
        [WhiteRatingDiff "-10"]
        [BlackRatingDiff "+5"]
        [ECO "B01"]
        [Opening "Scandinavian Defense: Mieses-Kotroc Variation"]
        [TimeControl "600+0"]
        [Termination "Normal"]
        
        1. e4 d5 2. exd5 Qxd5 3. Bb5+ Qxb5 4. d4 b6 5. Qf3 Nc6 6. Ne2 Bb7 7. d5 Ne5 8. Qf4 f6 9. Qe4 Qxd5 10. Qxd5 Bxd5 11. Nd4 Bxg2 12. Rg1 Nf3+ 13. Nxf3 Bxf3 14. Rg3 Bd5 15. Rd3 Bc4 16. Rd1 e5 17. Be3 Bb4+ 18. Bd2 Ba5 19. Bxa5 bxa5 20. Na3 Bf7 21. Nb5 Rc8 22. Nxa7 Ra8 23. Nc6 Ne7 24. Nxe7 Kxe7 25. O-O-O Rad8 26. Rxd8 Kxd8 27. a4 e4 28. c4 Re8 29. c5 e3 30. fxe3 Rxe3 31. c6 f5 32. Rb1 f4 33. b4 f3 34. Rb3 Rxb3 35. bxa5 f2 36. a6 Rb1+ 37. Kxb1 f1=Q+ 38. Kb2 Qf2+ 39. Ka3 Qa2+ 40. Kb4 Qb2+ 41. Ka5 Qb6# 0-1        
        "#;

    let cursor = Cursor::new(pgn_data);
    let mut buffered_reader = BufferedReader::new(cursor);
    let mut visitor = ReplayVisitor { replayer: Replayer::new(1) };

    while let Ok(game_read) = buffered_reader.read_game(&mut visitor) {
        match game_read {
            Some(_) => {}
            None => {
                break;
            }
        }
    }

    // 'O-O-O' cannot be played: the d1 square is taken by a rook
    assert_eq!(visitor.replayer.games().len(), 0);
}

#[test]
fn legal_moves_are_kept_in_coordinate_notation() {
    let games = vec![game(&["e4", "e5", "Nf3", "Nc6", "Bc4", "Bc5", "O-O"])];
    let r = replay_games(&games, 5);
    assert_eq!(r.games.len(), 1);
    assert_eq!(
        r.games[0],
        game(&["e2e4", "e7e5", "g1f3", "b8c6", "f1c4", "f8c5", "e1g1"])
    );
    assert_eq!(r.discarded, 0);
    assert_eq!(r.consumed, 1);
}

#[test]
fn promotion_is_written_with_its_piece() {
    let games = vec![game(&[
        "e4", "d5", "exd5", "c6", "dxc6", "Nf6", "cxb7", "Nbd7", "bxa8=Q",
    ])];
    let r = replay_games(&games, 1);
    assert_eq!(r.games.len(), 1);
    assert_eq!(r.games[0].last().unwrap(), "b7a8q");
}

#[test]
fn three_games_one_illegal_accepts_two() {
    let games = vec![legal_game(), illegal_game(), legal_game()];
    let r = replay_games(&games, 3);
    assert_eq!(r.games.len(), 2);
    assert_eq!(r.discarded, 1);
    assert_eq!(r.consumed, 3);
}

#[test]
fn quota_pulls_past_discarded_games() {
    let mut games = Vec::new();
    for i in 0..12 {
        if i == 3 {
            games.push(illegal_game());
        } else if i == 7 {
            games.push(unparsable_game());
        } else {
            games.push(legal_game());
        }
    }
    let r = replay_games(&games, 10);
    assert_eq!(r.consumed, 12);
    assert_eq!(r.games.len(), 10);
    assert_eq!(r.discarded, 2);
}

#[test]
fn quota_stops_once_met() {
    let games = vec![legal_game(), legal_game(), legal_game()];
    let r = replay_games(&games, 2);
    assert_eq!(r.consumed, 2);
    assert_eq!(r.games.len(), 2);
    let none = replay_games(&games, 0);
    assert_eq!(none.consumed, 0);
    assert_eq!(none.games.len(), 0);
}

#[test]
fn unparsable_game_leaves_neighbours_unchanged() {
    let a = game(&["e4", "c5"]);
    let c = game(&["d4", "d5", "c4"]);
    let with_bad = replay_games(&vec![a.clone(), unparsable_game(), c.clone()], 5);
    let without = replay_games(&vec![a, c], 5);
    assert_eq!(with_bad.games, without.games);
    assert_eq!(with_bad.discarded, without.discarded + 1);
    assert_eq!(with_bad.games.len(), 2);
}

#[test]
fn replayer_state_machine_steps() {
    let mut r = Replayer::new(2);
    assert!(!r.is_done());
    r.begin_game();
    r.san("e4");
    r.san("nonsense");
    r.san("e5");
    assert!(!r.end_game());
    assert_eq!(r.discarded(), 1);
    r.begin_game();
    r.san("d4");
    assert!(r.end_game());
    r.begin_game();
    r.san("c4");
    r.skip_game(gamma_chess::replay::DiscardReason::IllegalMove);
    assert!(!r.end_game());
    assert_eq!(r.discarded(), 2);
    assert_eq!(r.games().clone(), vec![game(&["d2d4"])]);
    assert_eq!(r.into_games().len(), 1);
}

#[test]
fn replaying_twice_gives_the_same_chunk() {
    let games = vec![legal_game(), illegal_game(), game(&["c4", "e5"])];
    let first = replay_games(&games, 10);
    let second = replay_games(&games, 10);
    assert_eq!(
        gamma_chess::proto::encode_chunk(&first.games),
        gamma_chess::proto::encode_chunk(&second.games)
    );
}
