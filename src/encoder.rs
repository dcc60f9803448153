//! The feature encoder: each (position, move) pair of a replayed game becomes
//! a position tensor of 12 planes x 8 ranks x 8 files and a one-hot move
//! tensor of 64 x 64 (origin, target) cells.
//!
//! Cells are bytes holding 0 or 1. A position tensor is laid out plane-major:
//! cell `plane * 64 + square`, with `square = rank * 8 + file` as in
//! `crate::chess`. Planes 0..6 hold the white pawn, knight, bishop, rook,
//! queen and king; planes 6..12 the black ones in the same order. A move
//! tensor has cell `origin * 64 + target` set.

use crate::chess::{
    parse_uci, role_from_code, squares_after, uci_move, uci_syntax, Board, Piece, PieceRole,
};
use crate::replay::strings_view;
use crate::proto::{dataset_games, deserialize_from_protobuf, parse_dataset, ChessGame, DecodeError};
use vstd::prelude::*;
use vstd::utf8::encode_utf8;

verus! {

/// Number of cells of a position tensor.
pub const POSITION_CELLS: usize = 768;

/// Number of cells of a move tensor.
pub const MOVE_CELLS: usize = 4096;

pub open spec fn role_base(r: PieceRole) -> nat {
    match r {
        PieceRole::Pawn => 0,
        PieceRole::Knight => 1,
        PieceRole::Bishop => 2,
        PieceRole::Rook => 3,
        PieceRole::Queen => 4,
        PieceRole::King => 5,
    }
}

/// The plane of a piece: its kind's base, plus 6 for black.
pub open spec fn plane_of(p: Piece) -> nat {
    role_base(p.role) + if p.white {
        0nat
    } else {
        6nat
    }
}

/// Cell `c` of the position tensor of a board given square by square.
pub open spec fn position_cell(squares: Seq<Option<Piece>>, c: int) -> u8 {
    match squares[c % 64] {
        Some(p) => if plane_of(p) == c / 64 {
            1u8
        } else {
            0u8
        },
        None => 0u8,
    }
}

pub open spec fn position_tensor(squares: Seq<Option<Piece>>) -> Seq<u8> {
    Seq::new(768, |c: int| position_cell(squares, c))
}

pub open spec fn move_tensor(from: nat, to: nat) -> Seq<u8> {
    Seq::new(
        4096,
        |c: int|
            if c == from * 64 + to {
                1u8
            } else {
                0u8
            },
    )
}

/// The plane of a piece.
pub fn piece_plane(p: Piece) -> (r: usize)
    ensures
        r == plane_of(p),
        r < 12,
{
    let base: usize = match p.role {
        PieceRole::Pawn => 0,
        PieceRole::Knight => 1,
        PieceRole::Bishop => 2,
        PieceRole::Rook => 3,
        PieceRole::Queen => 4,
        PieceRole::King => 5,
    };
    if p.white {
        base
    } else {
        base + 6
    }
}

/// The position tensor of a board given as the piece on each of its 64 squares.
pub fn board_to_tensor(squares: &Vec<Option<Piece>>) -> (r: Vec<u8>)
    requires
        squares.len() == 64,
    ensures
        r@ == position_tensor(squares@),
{
    let mut r: Vec<u8> = Vec::new();
    let mut c: usize = 0;
    while c < POSITION_CELLS
        invariant
            c <= 768,
            squares.len() == 64,
            r@ == position_tensor(squares@).take(c as int),
        decreases 768 - c,
    {
        let cell: u8 = match squares[c % 64] {
            Some(p) => if piece_plane(p) == c / 64 {
                1
            } else {
                0
            },
            None => 0,
        };
        proof {
            assert(position_tensor(squares@).take(c + 1) =~= position_tensor(squares@).take(
                c as int,
            ).push(cell));
        }
        r.push(cell);
        c = c + 1;
    }
    proof {
        assert(position_tensor(squares@).take(768) =~= position_tensor(squares@));
    }
    r
}

/// The one-hot move tensor of a move from square `from` to square `to`.
pub fn move_to_tensor(from: u8, to: u8) -> (r: Vec<u8>)
    requires
        from < 64,
        to < 64,
    ensures
        r@ == move_tensor(from as nat, to as nat),
{
    let index: usize = from as usize * 64 + to as usize;
    let mut r: Vec<u8> = Vec::new();
    let mut c: usize = 0;
    while c < MOVE_CELLS
        invariant
            c <= 4096,
            index == from * 64 + to,
            r@ == move_tensor(from as nat, to as nat).take(c as int),
        decreases 4096 - c,
    {
        let cell: u8 = if c == index {
            1
        } else {
            0
        };
        proof {
            assert(move_tensor(from as nat, to as nat).take(c + 1) =~= move_tensor(
                from as nat,
                to as nat,
            ).take(c as int).push(cell));
        }
        r.push(cell);
        c = c + 1;
    }
    proof {
        assert(move_tensor(from as nat, to as nat).take(4096) =~= move_tensor(from as nat, to as nat));
    }
    r
}

/// The encodings are one-hot: in a position tensor the cell of plane `p` at
/// a square is set exactly when a piece of that plane stands there, so each
/// occupied square has exactly one cell set and every other cell is clear;
/// a move tensor has exactly its cell `from * 64 + to` set.
pub proof fn lemma_encodings_one_hot(squares: Seq<Option<Piece>>, from: nat, to: nat)
    requires
        squares.len() == 64,
        from < 64,
        to < 64,
    ensures
        position_tensor(squares).len() == 768,
        forall|c: int| 0 <= c < 768 ==> #[trigger] position_tensor(squares)[c] <= 1,
        forall|p: int, sq: int|
            0 <= p < 12 && 0 <= sq < 64 ==> (#[trigger] position_tensor(squares)[p * 64 + sq] == 1
                <==> (squares[sq] matches Some(piece) && plane_of(piece) == p)),
        forall|piece: Piece| #[trigger] plane_of(piece) < 12,
        move_tensor(from, to).len() == 4096,
        from * 64 + to < 4096,
        forall|c: int| 0 <= c < 4096 ==> (#[trigger] move_tensor(from, to)[c] == 1 <==> c == from * 64 + to),
        forall|c: int| 0 <= c < 4096 ==> #[trigger] move_tensor(from, to)[c] <= 1,
{
    assert forall|p: int, sq: int|
        0 <= p < 12 && 0 <= sq < 64 implies (#[trigger] position_tensor(squares)[p * 64 + sq] == 1
            <==> (squares[sq] matches Some(piece) && plane_of(piece) == p)) by {
        assert((p * 64 + sq) % 64 == sq && (p * 64 + sq) / 64 == p) by (nonlinear_arith)
            requires
                0 <= sq < 64,
                0 <= p,
        ;
    }
    assert(from * 64 + to < 4096) by (nonlinear_arith)
        requires
            from < 64,
            to < 64,
    ;
}

/// A tensor that encodes some board.
pub open spec fn is_position_tensor(t: Seq<u8>) -> bool {
    exists|s: Seq<Option<Piece>>| s.len() == 64 && t == #[trigger] position_tensor(s)
}

/// A tensor that encodes some move.
pub open spec fn is_move_tensor(t: Seq<u8>) -> bool {
    exists|from: nat, to: nat| from < 64 && to < 64 && t == #[trigger] move_tensor(from, to)
}

/// Aligned position and move tensors: pair `k` is the position before a move
/// and that move, games in order and each game's moves in play order.
pub struct Dataset {
    pub positions: Vec<Vec<u8>>,
    pub moves: Vec<Vec<u8>>,
}

impl Dataset {
    /// Positions and moves are aligned and each is a well-formed encoding.
    pub open spec fn wf(&self) -> bool {
        &&& self.positions.len() == self.moves.len()
        &&& forall|k: int| 0 <= k < self.positions.len() ==> is_position_tensor(#[trigger] self.positions@[k]@)
        &&& forall|k: int| 0 <= k < self.moves.len() ==> is_move_tensor(#[trigger] self.moves@[k]@)
    }

    /// An empty dataset.
    pub fn empty() -> (r: Dataset)
        ensures
            r.wf(),
            r.positions.len() == 0,
    {
        Dataset { positions: Vec::new(), moves: Vec::new() }
    }

    /// Number of (position, move) pairs.
    pub fn len(&self) -> (r: usize)
        ensures
            r == self.positions.len(),
    {
        self.positions.len()
    }

    /// Appends the pair of a board, given square by square, and a move from
    /// square `from` to square `to` played from it.
    pub fn push(&mut self, squares: &Vec<Option<Piece>>, from: u8, to: u8)
        requires
            old(self).wf(),
            squares.len() == 64,
            from < 64,
            to < 64,
        ensures
            final(self).wf(),
            final(self).positions@.len() == old(self).positions@.len() + 1,
            final(self).positions@.drop_last() == old(self).positions@,
            final(self).moves@.drop_last() == old(self).moves@,
            final(self).positions@.last()@ == position_tensor(squares@),
            final(self).moves@.last()@ == move_tensor(from as nat, to as nat),
    {
        let p = board_to_tensor(squares);
        let m = move_to_tensor(from, to);
        proof {
            assert(is_position_tensor(p@));
            assert(is_move_tensor(m@));
        }
        self.positions.push(p);
        self.moves.push(m);
        proof {
            assert(self.positions@.drop_last() =~= old(self).positions@);
            assert(self.moves@.drop_last() =~= old(self).moves@);
            assert forall|k: int| 0 <= k < self.positions.len() implies is_position_tensor(
                #[trigger] self.positions@[k]@,
            ) by {
                if k < old(self).positions.len() {
                    assert(self.positions@[k] == old(self).positions@[k]);
                }
            }
            assert forall|k: int| 0 <= k < self.moves.len() implies is_move_tensor(
                #[trigger] self.moves@[k]@,
            ) by {
                if k < old(self).moves.len() {
                    assert(self.moves@[k] == old(self).moves@[k]);
                }
            }
        }
    }
}

/// The piece on each of the 64 squares of a board.
pub fn board_squares(board: &Board) -> (r: Vec<Option<Piece>>)
    ensures
        r@ == squares_after(board@),
{
    let mut r: Vec<Option<Piece>> = Vec::new();
    let mut sq: u8 = 0;
    while sq < 64
        invariant
            sq <= 64,
            r@ == squares_after(board@).take(sq as int),
        decreases 64 - sq,
    {
        let p = match board.piece_on(sq) {
            Some((c, w)) => Some(Piece { role: role_from_code(c), white: w }),
            None => None,
        };
        proof {
            assert(squares_after(board@).take(sq + 1) =~= squares_after(board@).take(sq as int).push(p));
        }
        r.push(p);
        sq = sq + 1;
    }
    proof {
        assert(squares_after(board@).take(64) =~= squares_after(board@));
    }
    r
}

/// Error from encoding games.
#[derive(Clone, Copy, Debug, PartialEq, Eq, Structural)]
pub enum EncodeError {
    /// Move `ply` of game `game` is not in coordinate notation.
    InvalidUci { game: usize, ply: usize },
    /// Move `ply` of game `game` is no legal move in the position reached.
    InvalidMove { game: usize, ply: usize },
}

/// The move tensor of a move given by its squares; empty for no move.
pub open spec fn move_cells(m: Option<(nat, nat)>) -> Seq<u8> {
    match m {
        Some((f, t)) => move_tensor(f, t),
        None => Seq::empty(),
    }
}

/// Every move of a game is a legal move, in turn, from the starting position.
pub open spec fn game_valid(ms: Seq<Seq<char>>) -> bool {
    forall|k: int| 0 <= k < ms.len() ==> #[trigger] uci_move(ms.take(k), ms[k]) is Some
}

/// The position tensor before each move of a game.
pub open spec fn game_positions(ms: Seq<Seq<char>>) -> Seq<Seq<u8>> {
    Seq::new(ms.len(), |k: int| position_tensor(squares_after(ms.take(k))))
}

/// The move tensor of each move of a game.
pub open spec fn game_move_tensors(ms: Seq<Seq<char>>) -> Seq<Seq<u8>> {
    Seq::new(ms.len(), |k: int| move_cells(uci_move(ms.take(k), ms[k])))
}

/// Position tensors of games in order, each game's in play order.
pub open spec fn batch_positions(gs: Seq<Seq<Seq<char>>>) -> Seq<Seq<u8>>
    decreases gs.len(),
{
    if gs.len() == 0 {
        Seq::empty()
    } else {
        batch_positions(gs.drop_last()) + game_positions(gs.last())
    }
}

/// Move tensors of games in order, each game's in play order.
pub open spec fn batch_moves(gs: Seq<Seq<Seq<char>>>) -> Seq<Seq<u8>>
    decreases gs.len(),
{
    if gs.len() == 0 {
        Seq::empty()
    } else {
        batch_moves(gs.drop_last()) + game_move_tensors(gs.last())
    }
}

pub open spec fn batch_valid(gs: Seq<Seq<Seq<char>>>) -> bool {
    forall|g: int| 0 <= g < gs.len() ==> #[trigger] game_valid(gs[g])
}

/// Move `k` of game `g` is the first that is no legal move.
pub open spec fn first_bad_move(gs: Seq<Seq<Seq<char>>>, g: int, k: int) -> bool {
    &&& 0 <= g < gs.len()
    &&& 0 <= k < gs[g].len()
    &&& forall|h: int| 0 <= h < g ==> #[trigger] game_valid(gs[h])
    &&& forall|j: int| 0 <= j < k ==> #[trigger] uci_move(gs[g].take(j), gs[g][j]) is Some
    &&& uci_move(gs[g].take(k), gs[g][k]) is None
}

pub open spec fn tensors_view(v: Seq<Vec<u8>>) -> Seq<Seq<u8>> {
    v.map_values(|t: Vec<u8>| t@)
}

/// What encoding the games `gs` gives: when every move is legal, one
/// (position, move) pair per move, games in order and moves in play order;
/// otherwise an error at the first move that is not, which says whether its
/// text is coordinate notation at all.
pub open spec fn encoding_of(gs: Seq<Seq<Seq<char>>>, r: Result<Dataset, EncodeError>) -> bool {
    match r {
        Ok(ds) => batch_valid(gs) && ds.wf() && tensors_view(ds.positions@) == batch_positions(gs)
            && tensors_view(ds.moves@) == batch_moves(gs),
        Err(EncodeError::InvalidUci { game, ply }) => first_bad_move(gs, game as int, ply as int)
            && !uci_syntax(encode_utf8(gs[game as int][ply as int])),
        Err(EncodeError::InvalidMove { game, ply }) => first_bad_move(gs, game as int, ply as int)
            && uci_syntax(encode_utf8(gs[game as int][ply as int])),
    }
}

proof fn lemma_tensors_push(v: Seq<Vec<u8>>, t: Vec<u8>)
    ensures
        tensors_view(v.push(t)) == tensors_view(v).push(t@),
{
    assert(tensors_view(v.push(t)) =~= tensors_view(v).push(t@));
}

/// Encodes replayed games: each game is replayed from the starting position
/// and every move gives one (position before it, move) pair. A move that is
/// not a legal move in the position reached fails the whole batch.
pub fn process_games(games: &Vec<ChessGame>) -> (r: Result<Dataset, EncodeError>)
    ensures
        encoding_of(dataset_games(games@), r),
{
    let ghost gs = dataset_games(games@);
    let mut ds = Dataset::empty();
    let mut g: usize = 0;
    proof {
        assert(gs.take(0) =~= Seq::<Seq<Seq<char>>>::empty());
        assert(tensors_view(ds.positions@) =~= Seq::<Seq<u8>>::empty());
        assert(tensors_view(ds.moves@) =~= Seq::<Seq<u8>>::empty());
    }
    while g < games.len()
        invariant
            gs == dataset_games(games@),
            gs.len() == games.len(),
            g <= games.len(),
            ds.wf(),
            tensors_view(ds.positions@) == batch_positions(gs.take(g as int)),
            tensors_view(ds.moves@) == batch_moves(gs.take(g as int)),
            forall|h: int| 0 <= h < g ==> #[trigger] game_valid(gs[h]),
        decreases games.len() - g,
    {
        let moves = &games[g].moves;
        let ghost ms = gs[g as int];
        let ghost pos0 = tensors_view(ds.positions@);
        let ghost mov0 = tensors_view(ds.moves@);
        let mut board = Board::start();
        let mut k: usize = 0;
        proof {
            assert(ms == strings_view(moves@));
            assert(ms.take(0) =~= Seq::<Seq<char>>::empty());
            assert(pos0 + game_positions(ms).take(0) =~= pos0);
            assert(mov0 + game_move_tensors(ms).take(0) =~= mov0);
        }
        while k < moves.len()
            invariant
                g < games.len(),
                gs == dataset_games(games@),
                gs.len() == games.len(),
                moves == games@[g as int].moves,
                ms == gs[g as int],
                ms == strings_view(moves@),
                k <= moves.len(),
                ds.wf(),
                board@ == ms.take(k as int),
                tensors_view(ds.positions@) == pos0 + game_positions(ms).take(k as int),
                tensors_view(ds.moves@) == mov0 + game_move_tensors(ms).take(k as int),
                forall|j: int| 0 <= j < k ==> #[trigger] uci_move(ms.take(j), ms[j]) is Some,
                forall|h: int| 0 <= h < g ==> #[trigger] game_valid(gs[h]),
            decreases moves.len() - k,
        {
            let text = moves[k].as_str();
            assert(text@ == ms[k as int]);
            let squares = board_squares(&board);
            match board.play_uci(text) {
                Some((from, to)) => {
                    let ghost before_p = ds.positions@;
                    let ghost before_m = ds.moves@;
                    ds.push(&squares, from, to);
                    proof {
                        assert(ds.positions@ == before_p.push(ds.positions@.last()));
                        assert(ds.moves@ == before_m.push(ds.moves@.last()));
                        lemma_tensors_push(before_p, ds.positions@.last());
                        lemma_tensors_push(before_m, ds.moves@.last());
                        assert(game_positions(ms).take(k + 1) =~= game_positions(ms).take(k as int).push(
                            position_tensor(squares_after(ms.take(k as int))),
                        ));
                        assert(game_move_tensors(ms).take(k + 1) =~= game_move_tensors(ms).take(
                            k as int,
                        ).push(move_cells(uci_move(ms.take(k as int), ms[k as int]))));
                        assert(ms.take(k as int).push(ms[k as int]) =~= ms.take(k + 1));
                    }
                },
                None => {
                    proof {
                        assert(uci_move(ms.take(k as int), ms[k as int]) is None);
                        assert forall|j: int| 0 <= j < k implies #[trigger] uci_move(
                            gs[g as int].take(j),
                            gs[g as int][j],
                        ) is Some by {
                            assert(uci_move(ms.take(j), ms[j]) is Some);
                        }
                        assert(0 <= g < gs.len());
                        assert(0 <= k < gs[g as int].len());
                        assert(forall|h: int| 0 <= h < g ==> #[trigger] game_valid(gs[h]));
                        assert(uci_move(gs[g as int].take(k as int), gs[g as int][k as int]) is None);
                        assert(first_bad_move(gs, g as int, k as int));
                    }
                    let ok = parse_uci(text);
                    proof {
                        assert(text@ == gs[g as int][k as int]);
                        assert(ok == uci_syntax(encode_utf8(gs[g as int][k as int])));
                    }
                    if ok {
                        let r = Err(EncodeError::InvalidMove { game: g, ply: k });
                        assert(encoding_of(gs, r));
                        return r;
                    } else {
                        let r = Err(EncodeError::InvalidUci { game: g, ply: k });
                        assert(encoding_of(gs, r));
                        return r;
                    }
                },
            }
            k = k + 1;
        }
        proof {
            assert(game_positions(ms).take(k as int) =~= game_positions(ms));
            assert(game_move_tensors(ms).take(k as int) =~= game_move_tensors(ms));
            assert(gs.take(g + 1).drop_last() =~= gs.take(g as int));
            assert(gs.take(g + 1).last() == ms);
            assert(game_valid(ms));
        }
        g = g + 1;
    }
    proof {
        assert(gs.take(games.len() as int) =~= gs);
    }
    Ok(ds)
}

/// Encoding concatenated game lists gives the concatenated encodings: chunk
/// encodings joined in chunk order are the encoding of the whole.
pub proof fn lemma_batch_concat(a: Seq<Seq<Seq<char>>>, b: Seq<Seq<Seq<char>>>)
    ensures
        batch_positions(a + b) == batch_positions(a) + batch_positions(b),
        batch_moves(a + b) == batch_moves(a) + batch_moves(b),
        batch_valid(a + b) <==> batch_valid(a) && batch_valid(b),
    decreases b.len(),
{
    if b.len() == 0 {
        assert(a + b =~= a);
        assert(batch_positions(a) + Seq::<Seq<u8>>::empty() =~= batch_positions(a));
        assert(batch_moves(a) + Seq::<Seq<u8>>::empty() =~= batch_moves(a));
    } else {
        let b0 = b.drop_last();
        lemma_batch_concat(a, b0);
        assert((a + b).drop_last() =~= a + b0);
        assert((a + b).last() == b.last());
        assert(batch_positions(a + b) =~= batch_positions(a) + batch_positions(b));
        assert(batch_moves(a + b) =~= batch_moves(a) + batch_moves(b));
        if batch_valid(a) && batch_valid(b) {
            assert forall|g: int| 0 <= g < (a + b).len() implies #[trigger] game_valid((a + b)[g]) by {
                if g >= a.len() {
                    assert((a + b)[g] == b[g - a.len()]);
                }
            }
        }
        if batch_valid(a + b) {
            assert forall|g: int| 0 <= g < a.len() implies #[trigger] game_valid(a[g]) by {
                assert((a + b)[g] == a[g]);
            }
            assert forall|g: int| 0 <= g < b.len() implies #[trigger] game_valid(b[g]) by {
                assert((a + b)[g + a.len()] == b[g]);
            }
        }
    }
}

/// Error from reading a persisted chunk into tensors.
#[derive(Clone, Copy, Debug, PartialEq, Eq, Structural)]
pub enum DatasetError {
    Decode(DecodeError),
    Encode(EncodeError),
}

impl Dataset {
    /// The tensors of a persisted chunk, given as its bytes: its games
    /// decoded, then encoded.
    pub fn new(data: &[u8]) -> (r: Result<Dataset, DatasetError>)
        ensures
            match parse_dataset(data@, 0, data@.len() as int) {
                None => r == Err::<Dataset, DatasetError>(DatasetError::Decode(DecodeError::Malformed)),
                Some(gs) => match r {
                    Ok(ds) => encoding_of(gs, Ok(ds)),
                    Err(DatasetError::Encode(e)) => encoding_of(gs, Err(e)),
                    Err(DatasetError::Decode(_)) => false,
                },
            },
    {
        match deserialize_from_protobuf(data) {
            Err(e) => Err(DatasetError::Decode(e)),
            Ok(games) => match process_games(&games.games) {
                Ok(ds) => Ok(ds),
                Err(e) => Err(DatasetError::Encode(e)),
            },
        }
    }
}

} // verus!
