//! Legality-checked replay of games, one move token at a time.
//!
//! Each game runs through a small state machine: it starts accepted with no
//! moves, each legal move is appended in coordinate notation, and the first
//! unparsable or illegal move discards the whole game. A replayer collects
//! accepted games until it holds the requested number of them.

use crate::chess::{parse_san, san_move, san_parses, Board};
use vstd::prelude::*;

verus! {

/// Why a game was discarded.
#[derive(Clone, Copy, Debug, PartialEq, Eq, Structural)]
pub enum DiscardReason {
    /// A move token did not parse.
    UnparsableMove,
    /// A move token parsed but was not legal in the position reached.
    IllegalMove,
}

/// A game's state during replay, and its result once it ends.
#[derive(Debug)]
pub enum GameResult {
    /// Every move so far was legal; the moves in coordinate notation.
    Accepted(Vec<String>),
    Discarded(DiscardReason),
}

/// Mathematical form of a `GameResult`.
pub enum GameModel {
    Accepted(Seq<Seq<char>>),
    Discarded(DiscardReason),
}

pub open spec fn strings_view(v: Seq<String>) -> Seq<Seq<char>> {
    v.map_values(|s: String| s@)
}

pub open spec fn games_view(v: Seq<Vec<String>>) -> Seq<Seq<Seq<char>>> {
    v.map_values(|g: Vec<String>| strings_view(g@))
}

impl View for GameResult {
    type V = GameModel;

    open spec fn view(&self) -> GameModel {
        match self {
            GameResult::Accepted(ms) => GameModel::Accepted(strings_view(ms@)),
            GameResult::Discarded(r) => GameModel::Discarded(*r),
        }
    }
}

/// One move token of a game: a discarded game stays discarded; otherwise a
/// token that does not parse discards the game as unparsable, the legal move
/// a token denotes after the game's moves is appended, and a token that
/// denotes none discards the game as illegal.
pub open spec fn san_step(g: GameModel, token: Seq<char>) -> GameModel {
    match g {
        GameModel::Discarded(r) => GameModel::Discarded(r),
        GameModel::Accepted(ms) => if !san_parses(token) {
            GameModel::Discarded(DiscardReason::UnparsableMove)
        } else {
            match san_move(ms, token) {
                Some(u) => GameModel::Accepted(ms.push(u)),
                None => GameModel::Discarded(DiscardReason::IllegalMove),
            }
        },
    }
}

/// The result of a game given as its move tokens, replayed from the start.
pub open spec fn replay_game(tokens: Seq<Seq<char>>) -> GameModel
    decreases tokens.len(),
{
    if tokens.len() == 0 {
        GameModel::Accepted(Seq::empty())
    } else {
        san_step(replay_game(tokens.drop_last()), tokens.last())
    }
}

/// The result of each game.
pub open spec fn game_results(games: Seq<Seq<Seq<char>>>) -> Seq<GameModel> {
    games.map_values(|g: Seq<Seq<char>>| replay_game(g))
}

/// State of a replay run.
pub struct ReplayModel {
    /// Accepted games, in the order they ended.
    pub accepted: Seq<Seq<Seq<char>>>,
    /// Number of discarded games.
    pub discarded: nat,
    /// Number of games taken from the stream.
    pub consumed: nat,
}

/// The run over a stream of finished games with a quota of `max` accepted
/// games: a game is taken only while fewer than `max` games are accepted.
pub open spec fn replay_model(results: Seq<GameModel>, max: nat) -> ReplayModel
    decreases results.len(),
{
    if results.len() == 0 {
        ReplayModel { accepted: Seq::empty(), discarded: 0, consumed: 0 }
    } else {
        let prev = replay_model(results.drop_last(), max);
        if prev.accepted.len() >= max {
            prev
        } else {
            match results.last() {
                GameModel::Accepted(ms) => ReplayModel {
                    accepted: prev.accepted.push(ms),
                    discarded: prev.discarded,
                    consumed: prev.consumed + 1,
                },
                GameModel::Discarded(_) => ReplayModel {
                    accepted: prev.accepted,
                    discarded: prev.discarded + 1,
                    consumed: prev.consumed + 1,
                },
            }
        }
    }
}

/// Mathematical form of a `Replayer`.
pub struct ReplayerModel {
    pub accepted: Seq<Seq<Seq<char>>>,
    pub current: GameModel,
    pub max_games: nat,
    pub discarded: nat,
}

/// Replays games move by move against the rules, keeping accepted games.
pub struct Replayer {
    games: Vec<Vec<String>>,
    current: GameResult,
    board: Board,
    max_games: usize,
    discarded: usize,
}

impl View for Replayer {
    type V = ReplayerModel;

    closed spec fn view(&self) -> ReplayerModel {
        ReplayerModel {
            accepted: games_view(self.games@),
            current: self.current@,
            max_games: self.max_games as nat,
            discarded: self.discarded as nat,
        }
    }
}

/// While a game is accepted, the board is the position its moves reach.
pub open spec fn board_follows(current: GameModel, played: Seq<Seq<char>>) -> bool {
    current matches GameModel::Accepted(ms) ==> played == ms
}

/// Plays one token on the board of the current game.
fn advance(board: &mut Board, current: &mut GameResult, token: &str)
    requires
        board_follows(old(current)@, old(board)@),
    ensures
        final(current)@ == san_step(old(current)@, token@),
        board_follows(final(current)@, final(board)@),
{
    if let GameResult::Discarded(_) = current {
        return;
    }
    match board.play_san(token) {
        Some(u) => {
            if let GameResult::Accepted(moves) = current {
                proof {
                    assert(strings_view(moves@.push(u)) =~= strings_view(moves@).push(u@));
                }
                moves.push(u);
            }
        },
        None => {
            let reason = if parse_san(token) {
                DiscardReason::IllegalMove
            } else {
                DiscardReason::UnparsableMove
            };
            *current = GameResult::Discarded(reason);
        },
    }
}

/// A fresh game from the starting position.
fn restart(board: &mut Board, current: &mut GameResult)
    ensures
        final(current)@ == GameModel::Accepted(Seq::empty()),
        board_follows(final(current)@, final(board)@),
        *final(current) matches GameResult::Accepted(ms) && ms@.len() == 0,
{
    *current = GameResult::Accepted(Vec::new());
    *board = Board::start();
    proof {
        assert(strings_view(Seq::<String>::empty()) =~= Seq::<Seq<char>>::empty());
    }
}

impl Replayer {
    /// While a game is accepted, the board is the position its moves reach.
    pub closed spec fn wf(&self) -> bool {
        board_follows(self.current@, self.board@)
    }

    /// A replayer that wants `max_games` accepted games.
    pub fn new(max_games: usize) -> (r: Replayer)
        ensures
            r@.accepted == Seq::<Seq<Seq<char>>>::empty(),
            r@.current == GameModel::Accepted(Seq::empty()),
            r@.max_games == max_games,
            r@.discarded == 0,
            r.wf(),
    {
        proof {
            assert(strings_view(Seq::<String>::empty()) =~= Seq::<Seq<char>>::empty());
        }
        let r = Replayer {
            games: Vec::new(),
            current: GameResult::Accepted(Vec::new()),
            board: Board::start(),
            max_games,
            discarded: 0,
        };
        proof {
            assert(games_view(r.games@) =~= Seq::<Seq<Seq<char>>>::empty());
        }
        r
    }

    /// Whether the quota of accepted games is met.
    pub fn is_done(&self) -> (r: bool)
        ensures
            r == (self@.accepted.len() >= self@.max_games),
    {
        self.games.len() >= self.max_games
    }

    /// Discards the current game.
    pub fn skip_game(&mut self, reason: DiscardReason)
        requires
            old(self).wf(),
        ensures
            final(self).wf(),
            final(self)@ == (ReplayerModel { current: GameModel::Discarded(reason), ..old(self)@ }),
    {
        self.current = GameResult::Discarded(reason);
    }

    /// Starts a game from the standard starting position with no moves.
    pub fn begin_game(&mut self)
        ensures
            final(self).wf(),
            final(self)@ == (ReplayerModel { current: GameModel::Accepted(Seq::empty()), ..old(self)@ }),
    {
        restart(&mut self.board, &mut self.current);
    }

    /// Handles one move token of the current game: the legal move it denotes
    /// in the position reached is appended in coordinate notation, and a
    /// token that denotes none discards the game.
    pub fn san(&mut self, token: &str)
        requires
            old(self).wf(),
        ensures
            final(self).wf(),
            final(self)@ == (ReplayerModel { current: san_step(old(self)@.current, token@), ..old(self)@ }),
    {
        advance(&mut self.board, &mut self.current, token);
    }

    /// Ends the current game: an accepted game joins the collected games, a
    /// discarded one is counted. Returns whether it was accepted.
    pub fn end_game(&mut self) -> (accepted: bool)
        requires
            old(self)@.discarded < usize::MAX,
        ensures
            final(self).wf(),
            accepted == old(self)@.current is Accepted,
            final(self)@ == (match old(self)@.current {
                GameModel::Accepted(ms) => ReplayerModel {
                    accepted: old(self)@.accepted.push(ms),
                    current: GameModel::Accepted(Seq::empty()),
                    ..old(self)@
                },
                GameModel::Discarded(_) => ReplayerModel {
                    discarded: old(self)@.discarded + 1,
                    current: GameModel::Accepted(Seq::empty()),
                    ..old(self)@
                },
            }),
    {
        let mut finished = GameResult::Discarded(DiscardReason::IllegalMove);
        std::mem::swap(&mut finished, &mut self.current);
        restart(&mut self.board, &mut self.current);
        match finished {
            GameResult::Accepted(moves) => {
                proof {
                    assert(games_view(self.games@.push(moves)) =~= games_view(self.games@).push(
                        strings_view(moves@),
                    ));
                }
                self.games.push(moves);
                true
            },
            GameResult::Discarded(_) => {
                self.discarded = self.discarded + 1;
                false
            },
        }
    }

    /// The accepted games so far, each as its moves in coordinate notation.
    pub fn games(&self) -> (r: &Vec<Vec<String>>)
        ensures
            games_view(r@) == self@.accepted,
    {
        &self.games
    }

    /// Number of games discarded so far.
    pub fn discarded(&self) -> (r: usize)
        ensures
            r == self@.discarded,
    {
        self.discarded
    }

    /// The accepted games, taking the replayer apart.
    pub fn into_games(self) -> (r: Vec<Vec<String>>)
        ensures
            games_view(r@) == self@.accepted,
    {
        self.games
    }
}

/// Counts of a replay run: it never accepts more than `max` games, every game
/// taken is either accepted or discarded, and it takes games until `max` are
/// accepted or the stream is exhausted, whichever comes first.
pub proof fn lemma_replay_quota(results: Seq<GameModel>, max: nat)
    ensures
        replay_model(results, max).accepted.len() <= max,
        replay_model(results, max).accepted.len() + replay_model(results, max).discarded
            == replay_model(results, max).consumed,
        replay_model(results, max).consumed <= results.len(),
        replay_model(results, max).accepted.len() < max ==> replay_model(results, max).consumed
            == results.len(),
        replay_model(results, max).consumed < results.len() ==> replay_model(results, max).accepted.len()
            == max,
    decreases results.len(),
{
    if results.len() > 0 {
        lemma_replay_quota(results.drop_last(), max);
    }
}

/// Once the quota is met, later games change nothing.
proof fn lemma_replay_stops(results: Seq<GameModel>, i: int, max: nat)
    requires
        0 <= i <= results.len(),
        i == results.len() || replay_model(results.take(i), max).accepted.len() >= max,
    ensures
        replay_model(results, max) == replay_model(results.take(i), max),
    decreases results.len(),
{
    if i == results.len() {
        assert(results.take(i) =~= results);
    } else {
        let p = results.drop_last();
        assert(p.take(i) =~= results.take(i));
        lemma_replay_stops(p, i, max);
    }
}

/// A discarded game contributes nothing: removing it from the stream leaves
/// the accepted games unchanged, and where the quota was not yet met before it,
/// it accounts for exactly one discard.
pub proof fn lemma_discarded_game_isolated(
    before: Seq<GameModel>,
    reason: DiscardReason,
    after: Seq<GameModel>,
    max: nat,
)
    ensures
        replay_model(before + seq![GameModel::Discarded(reason)] + after, max).accepted
            == replay_model(before + after, max).accepted,
        replay_model(before, max).accepted.len() < max ==> replay_model(
            before + seq![GameModel::Discarded(reason)] + after,
            max,
        ).discarded == replay_model(before + after, max).discarded + 1,
    decreases after.len(),
{
    let d = seq![GameModel::Discarded(reason)];
    if after.len() == 0 {
        assert(before + d + after =~= before.push(GameModel::Discarded(reason)));
        assert(before.push(GameModel::Discarded(reason)).drop_last() =~= before);
        assert(before + after =~= before);
    } else {
        let rest = after.drop_last();
        lemma_discarded_game_isolated(before, reason, rest, max);
        assert((before + d + after).drop_last() =~= before + d + rest);
        assert((before + after).drop_last() =~= before + rest);
        assert((before + d + after).last() == after.last());
        assert((before + after).last() == after.last());
    }
}

/// A game holding a token that does not parse is discarded.
pub proof fn lemma_unparsable_token_discards(tokens: Seq<Seq<char>>, k: int)
    requires
        0 <= k < tokens.len(),
        !san_parses(tokens[k]),
    ensures
        replay_game(tokens) is Discarded,
    decreases tokens.len(),
{
    if k < tokens.len() - 1 {
        assert(tokens.drop_last()[k] == tokens[k]);
        lemma_unparsable_token_discards(tokens.drop_last(), k);
    }
}

/// An accepted game is complete and legal: it has one move per token, and
/// each move is the legal move its token denotes after the moves before it,
/// from the starting position.
pub proof fn lemma_accepted_game_is_legal(tokens: Seq<Seq<char>>)
    ensures
        replay_game(tokens) matches GameModel::Accepted(ms) ==> ms.len() == tokens.len() && forall|k: int|
            0 <= k < tokens.len() ==> #[trigger] san_move(ms.take(k), tokens[k]) == Some(ms[k]),
    decreases tokens.len(),
{
    if tokens.len() > 0 {
        let p = tokens.drop_last();
        lemma_accepted_game_is_legal(p);
        if let GameModel::Accepted(ms) = replay_game(tokens) {
            if let GameModel::Accepted(pm) = replay_game(p) {
                assert(san_parses(tokens.last()));
                assert(ms == pm.push(san_move(pm, tokens.last())->Some_0));
                assert forall|k: int| 0 <= k < tokens.len() implies #[trigger] san_move(
                    ms.take(k),
                    tokens[k],
                ) == Some(ms[k]) by {
                    if k < tokens.len() - 1 {
                        assert(ms.take(k) =~= pm.take(k));
                        assert(tokens[k] == p[k]);
                        assert(san_move(pm.take(k), p[k]) == Some(pm[k]));
                    } else {
                        assert(ms.take(k) =~= pm);
                    }
                }
            }
        }
    }
}

/// A game's result depends on its own tokens only: replaying from the game
/// that the index locates gives every later game the same result as a replay
/// of the whole stream from its first game.
pub proof fn lemma_replay_from_located_game(games: Seq<Seq<Seq<char>>>, n: int)
    requires
        0 <= n <= games.len(),
    ensures
        game_results(games.skip(n)) == game_results(games).skip(n),
{
    assert(game_results(games.skip(n)) =~= game_results(games).skip(n));
}

/// Outcome of replaying a stream of games.
pub struct ReplaySummary {
    /// The accepted games, each as its moves in coordinate notation.
    pub games: Vec<Vec<String>>,
    /// Number of games discarded.
    pub discarded: usize,
    /// Number of games taken from the stream.
    pub consumed: usize,
}

/// Replays games given as their move tokens until `max_games` are accepted or
/// the games run out: the run that `replay_model` gives for the games' results.
pub fn replay_games(games: &Vec<Vec<String>>, max_games: usize) -> (r: ReplaySummary)
    ensures
        replay_model(game_results(games_view(games@)), max_games as nat) == (ReplayModel {
            accepted: games_view(r.games@),
            discarded: r.discarded as nat,
            consumed: r.consumed as nat,
        }),
        r.consumed <= games.len(),
        r.games.len() <= max_games,
        r.games.len() + r.discarded == r.consumed,
        r.consumed < games.len() ==> r.games.len() == max_games,
        r.games.len() < max_games ==> r.consumed == games.len(),
{
    let ghost rs = game_results(games_view(games@));
    let mut rep = Replayer::new(max_games);
    let mut i: usize = 0;
    proof {
        assert(replay_model(rs.take(0), max_games as nat).accepted =~= rep@.accepted);
    }
    while i < games.len() && !rep.is_done()
        invariant
            rs == game_results(games_view(games@)),
            rs.len() == games.len(),
            i <= games.len(),
            rep@.max_games == max_games,
            rep@.discarded <= i,
            rep@.current == GameModel::Accepted(Seq::empty()),
            rep.wf(),
            replay_model(rs.take(i as int), max_games as nat) == (ReplayModel {
                accepted: rep@.accepted,
                discarded: rep@.discarded,
                consumed: i as nat,
            }),
        decreases games.len() - i,
    {
        rep.begin_game();
        let tokens = &games[i];
        let ghost tv = strings_view(tokens@);
        let ghost start = rep@;
        let mut k: usize = 0;
        proof {
            assert(tv.take(0) =~= Seq::<Seq<char>>::empty());
        }
        while k < tokens.len()
            invariant
                k <= tokens.len(),
                tokens == games@[i as int],
                tv == strings_view(tokens@),
                rep@.accepted == start.accepted,
                rep@.discarded == start.discarded,
                rep@.max_games == start.max_games,
                rep@.current == replay_game(tv.take(k as int)),
                rep.wf(),
            decreases tokens.len() - k,
        {
            rep.san(tokens[k].as_str());
            proof {
                assert(tv.take(k + 1).drop_last() =~= tv.take(k as int));
                assert(tv.take(k + 1).last() == tokens@[k as int]@);
            }
            k = k + 1;
        }
        proof {
            assert(tv.take(k as int) =~= tv);
            assert(games_view(games@)[i as int] == tv);
            assert(rs[i as int] == rep@.current);
            assert(rs.take(i + 1).drop_last() =~= rs.take(i as int));
            assert(rs.take(i + 1).last() == rs[i as int]);
        }
        rep.end_game();
        i = i + 1;
    }
    proof {
        lemma_replay_quota(rs.take(i as int), max_games as nat);
        lemma_replay_stops(rs, i as int, max_games as nat);
    }
    let discarded = rep.discarded();
    let out = rep.into_games();
    ReplaySummary { games: out, discarded, consumed: i }
}

} // verus!
