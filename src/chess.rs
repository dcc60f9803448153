//! The chess-rules capability: notation parsing, move legality and board
//! state, provided by `shakmaty` behind small trusted items.
//!
//! Squares are numbered 0..64 rank-major from a1: `square = rank * 8 + file`,
//! so a1 = 0, h1 = 7, a8 = 56, h8 = 63.
//!
//! A position is named by the moves played to reach it from the standard
//! starting position, each in coordinate (UCI) notation such as `e2e4` or
//! `e7e8q`. The rules' answers are functions of that history and of the move
//! text alone; they are named below and stated by the trusted items.

use shakmaty::san::San;
use shakmaty::uci::Uci;
use shakmaty::{Chess, Position};
use std::str::FromStr;
use vstd::prelude::*;
use vstd::utf8::encode_utf8;

verus! {

#[verifier::external_type_specification]
#[verifier::external_body]
pub struct ExChess(shakmaty::Chess);

/// Kind of a chess piece.
#[derive(Clone, Copy, Debug, PartialEq, Eq, Structural)]
pub enum PieceRole {
    Pawn,
    Knight,
    Bishop,
    Rook,
    Queen,
    King,
}

/// A piece as it stands on a square: its kind and its side.
#[derive(Clone, Copy, Debug, PartialEq, Eq, Structural)]
pub struct Piece {
    pub role: PieceRole,
    pub white: bool,
}

/// Whether a move token in standard algebraic notation parses; this depends on
/// the token's characters alone.
pub uninterp spec fn san_parses(token: Seq<char>) -> bool;

/// The legal move that a SAN token denotes after the moves `played`, in
/// coordinate notation; `None` when the token does not parse or denotes no
/// legal move there.
pub uninterp spec fn san_move(played: Seq<Seq<char>>, token: Seq<char>) -> Option<Seq<char>>;

/// Origin and target square of the legal move that a coordinate-notation text
/// denotes after the moves `played` (for castling, the king's and the rook's
/// squares); `None` when the text does not parse or denotes no legal move
/// with an origin square there.
pub uninterp spec fn uci_move(played: Seq<Seq<char>>, text: Seq<char>) -> Option<(nat, nat)>;

/// The piece on `square` after the moves `played`, as the code of its kind
/// (1 pawn, 2 knight, 3 bishop, 4 rook, 5 queen, 6 king) and whether it is white.
pub uninterp spec fn piece_after(played: Seq<Seq<char>>, square: nat) -> Option<(u8, bool)>;

pub open spec fn role_of_code(c: u8) -> PieceRole {
    if c == 1 {
        PieceRole::Pawn
    } else if c == 2 {
        PieceRole::Knight
    } else if c == 3 {
        PieceRole::Bishop
    } else if c == 4 {
        PieceRole::Rook
    } else if c == 5 {
        PieceRole::Queen
    } else {
        PieceRole::King
    }
}

/// The board after the moves `played`, square by square.
pub open spec fn squares_after(played: Seq<Seq<char>>) -> Seq<Option<Piece>> {
    Seq::new(
        64,
        |i: int|
            match piece_after(played, i as nat) {
                Some((c, w)) => Some(Piece { role: role_of_code(c), white: w }),
                None => None,
            },
    )
}

/// The kind of a piece from its code.
pub fn role_from_code(c: u8) -> (r: PieceRole)
    ensures
        r == role_of_code(c),
{
    if c == 1 {
        PieceRole::Pawn
    } else if c == 2 {
        PieceRole::Knight
    } else if c == 3 {
        PieceRole::Bishop
    } else if c == 4 {
        PieceRole::Rook
    } else if c == 5 {
        PieceRole::Queen
    } else {
        PieceRole::King
    }
}

pub open spec fn is_file_byte(b: u8) -> bool {
    0x61 <= b <= 0x68
}

pub open spec fn is_rank_byte(b: u8) -> bool {
    0x31 <= b <= 0x38
}

/// A piece letter, either case: `PNBRQK`.
pub open spec fn is_role_byte(b: u8) -> bool {
    b == 0x50 || b == 0x70 || b == 0x4E || b == 0x6E || b == 0x42 || b == 0x62 || b == 0x52 || b
        == 0x72 || b == 0x51 || b == 0x71 || b == 0x4B || b == 0x6B
}

/// Coordinate notation as `Uci::from_ascii` reads it: 4 or 5 bytes; `0000`;
/// a drop `R@sq`; or two squares and, in 5 bytes, a promotion letter.
pub open spec fn uci_syntax(b: Seq<u8>) -> bool {
    &&& (b.len() == 4 || b.len() == 5)
    &&& (b == seq![0x30u8, 0x30u8, 0x30u8, 0x30u8] || (is_file_byte(b[2]) && is_rank_byte(b[3]) && (
    if b[1] == 0x40 {
        is_role_byte(b[0])
    } else {
        is_file_byte(b[0]) && is_rank_byte(b[1]) && (b.len() == 5 ==> is_role_byte(b[4]))
    })))
}

/// Relies on `San::from_str`: whether a SAN token parses.
#[verifier::external_body]
pub(crate) fn parse_san(token: &str) -> (r: bool)
    ensures
        r == san_parses(token@),
{
    San::from_str(token).is_ok()
}

/// Relies on `Uci::from_str`: whether a text parses as coordinate notation.
#[verifier::external_body]
pub(crate) fn parse_uci(text: &str) -> (r: bool)
    ensures
        r == uci_syntax(encode_utf8(text@)),
{
    Uci::from_str(text).is_ok()
}

/// A position, reached from the starting position by the moves in its view.
pub struct Board {
    pos: Chess,
    played: Ghost<Seq<Seq<char>>>,
}

impl View for Board {
    type V = Seq<Seq<char>>;

    closed spec fn view(&self) -> Seq<Seq<char>> {
        self.played@
    }
}

impl Board {
    /// Relies on `Chess::default`: the standard starting position.
    #[verifier::external_body]
    pub fn start() -> (b: Board)
        ensures
            b@ == Seq::<Seq<char>>::empty(),
    {
        Board { pos: Chess::default(), played: Ghost(Seq::empty()) }
    }

    /// Relies on `San::from_str`, `San::to_move` (the legal move a token
    /// denotes), `Uci::from_standard` with `Uci`'s `Display` (its coordinate
    /// text) and `Position::play`: plays the move of a SAN token and returns
    /// it in coordinate notation; does nothing when there is none.
    #[verifier::external_body]
    pub fn play_san(&mut self, token: &str) -> (r: Option<String>)
        ensures
            match san_move(old(self)@, token@) {
                Some(u) => r matches Some(s) && s@ == u && final(self)@ == old(self)@.push(u),
                None => r is None && final(self)@ == old(self)@,
            },
            !san_parses(token@) ==> r is None,
    {
        let m = San::from_str(token).ok()?.to_move(&self.pos).ok()?;
        let next = self.pos.clone().play(&m).ok()?;
        self.pos = next;
        Some(Uci::from_standard(&m).to_string())
    }

    /// Relies on `Uci::from_str`, `Uci::to_move` (the legal move a text
    /// denotes), `Move::from`, `Move::to` and `Position::play`: plays the move
    /// of a coordinate-notation text and returns its origin and target
    /// squares; does nothing when there is none.
    #[verifier::external_body]
    pub fn play_uci(&mut self, text: &str) -> (r: Option<(u8, u8)>)
        ensures
            match uci_move(old(self)@, text@) {
                Some((f, t)) => f < 64 && t < 64 && r == Some((f as u8, t as u8)) && final(self)@
                    == old(self)@.push(text@),
                None => r is None && final(self)@ == old(self)@,
            },
            !uci_syntax(encode_utf8(text@)) ==> r is None,
    {
        let m = Uci::from_str(text).ok()?.to_move(&self.pos).ok()?;
        let from = u8::from(m.from()?);
        let to = u8::from(m.to());
        let next = self.pos.clone().play(&m).ok()?;
        self.pos = next;
        Some((from, to))
    }

    /// Relies on `Board::piece_at` and `Square::new` (which panics from 64
    /// on): the piece on a square, as the code of its `Role` and its side.
    #[verifier::external_body]
    pub fn piece_on(&self, square: u8) -> (r: Option<(u8, bool)>)
        requires
            square < 64,
        ensures
            r == piece_after(self@, square as nat),
            r matches Some((c, _)) ==> 1 <= c <= 6,
    {
        match self.pos.board().piece_at(shakmaty::Square::new(square as u32)) {
            Some(p) => Some((p.role as u8, p.color.is_white())),
            None => None,
        }
    }
}

} // verus!
