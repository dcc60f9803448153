//! The persisted chunk format: a dataset of games, each a list of moves in
//! coordinate notation, in the protocol-buffers wire format
//! (`message ChessGame { repeated string moves = 1; }`,
//! `message ChessDataSet { repeated ChessGame games = 1; }`).

use crate::replay::{game_results, games_view, replay_games, replay_model, strings_view};
use vstd::prelude::*;
use vstd::utf8::{decode_utf8, encode_utf8, encode_utf8_decode_utf8, encode_utf8_valid_utf8, valid_utf8};

verus! {

/// One game: its moves in coordinate notation, in play order.
#[derive(Debug, PartialEq, Eq)]
pub struct ChessGame {
    pub moves: Vec<String>,
}

/// The games of one chunk, in traversal order.
#[derive(Debug, PartialEq, Eq)]
pub struct ChessDataSet {
    pub games: Vec<ChessGame>,
}

impl View for ChessGame {
    type V = Seq<Seq<char>>;

    open spec fn view(&self) -> Seq<Seq<char>> {
        strings_view(self.moves@)
    }
}

pub open spec fn dataset_games(games: Seq<ChessGame>) -> Seq<Seq<Seq<char>>> {
    games.map_values(|g: ChessGame| g@)
}

impl View for ChessDataSet {
    type V = Seq<Seq<Seq<char>>>;

    open spec fn view(&self) -> Seq<Seq<Seq<char>>> {
        dataset_games(self.games@)
    }
}

/// The dataset of a chunk from the replayer's accepted games.
pub fn dataset_from_games(games: &Vec<Vec<String>>) -> (r: ChessDataSet)
    ensures
        r@ == games_view(games@),
{
    let mut out: Vec<ChessGame> = Vec::new();
    let mut i: usize = 0;
    proof {
        assert(dataset_games(out@) =~= games_view(games@.take(0)));
    }
    while i < games.len()
        invariant
            i <= games.len(),
            dataset_games(out@) == games_view(games@.take(i as int)),
        decreases games.len() - i,
    {
        let moves = games[i].clone();
        proof {
            assert(moves@ =~= games@[i as int]@);
            assert(games@.take(i + 1) =~= games@.take(i as int).push(games@[i as int]));
            assert(dataset_games(out@.push(ChessGame { moves })) =~= dataset_games(out@).push(
                strings_view(moves@),
            ));
            assert(games_view(games@.take(i + 1)) =~= games_view(
                games@.take(i as int),
            ).push(strings_view(moves@)));
        }
        out.push(ChessGame { moves });
        i = i + 1;
    }
    proof {
        assert(games@.take(games.len() as int) =~= games@);
    }
    ChessDataSet { games: out }
}


/// LEB128 encoding of `v`, seven bits per byte, least significant group first.
pub open spec fn varint_bytes(v: nat) -> Seq<u8>
    decreases v,
{
    if v < 128 {
        seq![v as u8]
    } else {
        seq![(v % 128 + 128) as u8] + varint_bytes(v / 128)
    }
}

/// One past the index of the first byte below 128 from `i` on, looking at the
/// first ten bytes only; 0 when there is none.
pub open spec fn varint_end(b: Seq<u8>, i: nat) -> nat
    decreases 10 - i,
{
    if i >= 10 || i >= b.len() {
        0
    } else if b[i as int] < 128 {
        i + 1
    } else {
        varint_end(b, i + 1)
    }
}

/// Value of the first `k` bytes of `b` read as LEB128 groups.
pub open spec fn varint_val(b: Seq<u8>, k: nat) -> nat
    decreases k,
{
    if k == 0 || b.len() == 0 {
        0
    } else {
        (b[0] % 128) as nat + 128 * varint_val(b.drop_first(), (k - 1) as nat)
    }
}

/// A varint at the start of `b` as the protocol-buffers wire format reads
/// it: at most ten bytes, the last one below 128 and, for the tenth, below 2;
/// its value and its length.
pub open spec fn varint_decode(b: Seq<u8>) -> Option<(nat, nat)> {
    let k = varint_end(b, 0);
    if k == 0 || (k == 10 && b[9] >= 2) {
        None
    } else {
        Some((varint_val(b, k), k))
    }
}

/// Relies on `prost::encoding::encode_varint`: appends the LEB128 encoding of `v`.
#[verifier::external_body]
fn put_varint(v: u64, buf: &mut Vec<u8>)
    ensures
        final(buf)@ == old(buf)@ + varint_bytes(v as nat),
{
    prost::encoding::encode_varint(v, buf)
}

/// Relies on `prost::encoding::decode_varint`: reads one varint from
/// `data[pos..end]`; returns its value and the number of bytes left after it.
#[verifier::external_body]
fn read_varint(data: &[u8], pos: usize, end: usize) -> (r: Option<(u64, usize)>)
    requires
        pos <= end <= data.len(),
    ensures
        match varint_decode(data@.subrange(pos as int, end as int)) {
            Some((v, k)) => r == Some((v as u64, (end - pos - k) as usize)),
            None => r is None,
        },
{
    let mut buf = &data[pos..end];
    match prost::encoding::decode_varint(&mut buf) {
        Ok(v) => Some((v, buf.len())),
        Err(_) => None,
    }
}

/// Relies on `prost::encoding::decode_key`: reads the key of a field from
/// `data[pos..end]`, a varint of at most 32 bits whose low three bits are a
/// wire type from 0 to 5 and whose other bits are a field number above 0;
/// returns the field number, the wire type and the number of bytes left after
/// the key.
#[verifier::external_body]
fn read_key(data: &[u8], pos: usize, end: usize) -> (r: Option<(u32, u8, usize)>)
    requires
        pos <= end <= data.len(),
    ensures
        match varint_decode(data@.subrange(pos as int, end as int)) {
            Some((key, k)) => if key > u32::MAX || key % 8 > 5 || key / 8 == 0 {
                r is None
            } else {
                r == Some(((key / 8) as u32, (key % 8) as u8, (end - pos - k) as usize))
            },
            None => r is None,
        },
{
    let mut buf = &data[pos..end];
    match prost::encoding::decode_key(&mut buf) {
        Ok((tag, wire_type)) => Some((tag, wire_type as u8, buf.len())),
        Err(_) => None,
    }
}

/// Relies on `String::from_utf8`: the string whose UTF-8 bytes are `bytes`,
/// `None` when they are not valid UTF-8.
#[verifier::external_body]
fn utf8_string(bytes: Vec<u8>) -> (r: Option<String>)
    ensures
        r is Some <==> valid_utf8(bytes@),
        r matches Some(s) ==> encode_utf8(s@) == bytes@,
{
    String::from_utf8(bytes).ok()
}

/// A length-delimited field number 1: its key, its length, its bytes.
pub open spec fn field_bytes(body: Seq<u8>) -> Seq<u8> {
    seq![0x0Au8] + varint_bytes(body.len()) + body
}

/// Encoding of a game: each move as a string field number 1.
pub open spec fn game_bytes(moves: Seq<Seq<char>>) -> Seq<u8>
    decreases moves.len(),
{
    if moves.len() == 0 {
        Seq::empty()
    } else {
        field_bytes(encode_utf8(moves[0])) + game_bytes(moves.drop_first())
    }
}

/// Encoding of a dataset: each game as an embedded message in field number 1.
pub open spec fn dataset_bytes(games: Seq<Seq<Seq<char>>>) -> Seq<u8>
    decreases games.len(),
{
    if games.len() == 0 {
        Seq::empty()
    } else {
        field_bytes(game_bytes(games[0])) + dataset_bytes(games.drop_first())
    }
}

/// A field of a message, found between `body_start` and `body_end` for a
/// length-delimited one; the next field starts at `next`.
pub struct FieldModel {
    pub tag: nat,
    pub wire_type: nat,
    pub body_start: int,
    pub body_end: int,
    pub next: int,
}

/// The field at `pos` of a message that ends at `end`: a key (a varint of at
/// most 32 bits: field number above 0, wire type in its low three bits) and
/// a varint (wire type 0), 8 bytes (1), a length and that many bytes (2) or 4
/// bytes (5). Groups (3, 4) and wire types 6 and 7 are refused.
pub open spec fn parse_field(d: Seq<u8>, pos: int, end: int) -> Option<FieldModel> {
    match varint_decode(d.subrange(pos, end)) {
        None => None,
        Some((key, klen)) => {
            let wt = key % 8;
            let tag = key / 8;
            let p = pos + klen;
            if key > u32::MAX || tag == 0 {
                None
            } else if wt == 0 {
                match varint_decode(d.subrange(p, end)) {
                    None => None,
                    Some((_, n)) => Some(
                        FieldModel { tag, wire_type: 0, body_start: p, body_end: p, next: p + n },
                    ),
                }
            } else if wt == 1 {
                if p + 8 <= end {
                    Some(FieldModel { tag, wire_type: 1, body_start: p, body_end: p, next: p + 8 })
                } else {
                    None
                }
            } else if wt == 2 {
                match varint_decode(d.subrange(p, end)) {
                    None => None,
                    Some((len, n)) => if p + n + len <= end {
                        Some(
                            FieldModel {
                                tag,
                                wire_type: 2,
                                body_start: p + n,
                                body_end: p + n + len,
                                next: p + n + len,
                            },
                        )
                    } else {
                        None
                    },
                }
            } else if wt == 5 {
                if p + 4 <= end {
                    Some(FieldModel { tag, wire_type: 5, body_start: p, body_end: p, next: p + 4 })
                } else {
                    None
                }
            } else {
                None
            }
        },
    }
}

/// The moves of the game message between `pos` and `end`: the strings of
/// field number 1 in order, other fields skipped.
pub open spec fn parse_game(d: Seq<u8>, pos: int, end: int) -> Option<Seq<Seq<char>>>
    decreases end - pos,
{
    if pos >= end {
        Some(Seq::empty())
    } else {
        match parse_field(d, pos, end) {
            None => None,
            Some(f) => if f.next <= pos || f.next > end {
                None
            } else {
                let rest = parse_game(d, f.next, end);
                if f.tag == 1 {
                    if f.wire_type != 2 || !valid_utf8(d.subrange(f.body_start, f.body_end)) {
                        None
                    } else {
                        match rest {
                            Some(r) => Some(seq![decode_utf8(d.subrange(f.body_start, f.body_end))] + r),
                            None => None,
                        }
                    }
                } else {
                    rest
                }
            },
        }
    }
}

/// The games of the dataset message between `pos` and `end`: the embedded
/// game messages of field number 1 in order, other fields skipped.
pub open spec fn parse_dataset(d: Seq<u8>, pos: int, end: int) -> Option<Seq<Seq<Seq<char>>>>
    decreases end - pos,
{
    if pos >= end {
        Some(Seq::empty())
    } else {
        match parse_field(d, pos, end) {
            None => None,
            Some(f) => if f.next <= pos || f.next > end {
                None
            } else {
                let rest = parse_dataset(d, f.next, end);
                if f.tag == 1 {
                    if f.wire_type != 2 {
                        None
                    } else {
                        match (parse_game(d, f.body_start, f.body_end), rest) {
                            (Some(g), Some(r)) => Some(seq![g] + r),
                            _ => None,
                        }
                    }
                } else {
                    rest
                }
            },
        }
    }
}


pub open spec fn pow128(m: nat) -> nat
    decreases m,
{
    if m == 0 {
        1
    } else {
        128 * pow128((m - 1) as nat)
    }
}

/// Shape of the varint of `v < 2 * 128^m`: at most `m + 1` bytes, all but the
/// last at or above 128, the last below 128, and below 2 when there are `m + 1`.
proof fn lemma_varint_shape(v: nat, m: nat)
    requires
        v < 2 * pow128(m),
    ensures
        1 <= varint_bytes(v).len() <= m + 1,
        varint_bytes(v).len() == m + 1 ==> varint_bytes(v).last() < 2,
        varint_bytes(v).last() < 128,
        forall|i: int| 0 <= i < varint_bytes(v).len() - 1 ==> #[trigger] varint_bytes(v)[i] >= 128,
    decreases v,
{
    let e = varint_bytes(v);
    if v >= 128 {
        assert(m > 0) by {
            if m == 0 {
                assert(pow128(0) == 1);
            }
        }
        let m1 = (m - 1) as nat;
        assert(v / 128 < 2 * pow128(m1)) by (nonlinear_arith)
            requires
                v < 2 * (128 * pow128(m1)),
        ;
        lemma_varint_shape(v / 128, m1);
        let t = varint_bytes(v / 128);
        assert(e == seq![(v % 128 + 128) as u8] + t);
        assert forall|i: int| 0 <= i < e.len() - 1 implies #[trigger] e[i] >= 128 by {
            if i > 0 {
                assert(e[i] == t[i - 1]);
            }
        }
        assert(e.last() == t.last());
    } else {
        if m == 0 {
            assert(pow128(0) == 1);
        }
    }
}

/// Where the first `k` bytes of `b` are those of a varint, the scan for its
/// end from `i` stops after them.
proof fn lemma_varint_end_at(b: Seq<u8>, k: nat, i: nat)
    requires
        1 <= k <= 10,
        k <= b.len(),
        i < k,
        b[k - 1] < 128,
        forall|j: int| 0 <= j < k - 1 ==> #[trigger] b[j] >= 128,
    ensures
        varint_end(b, i) == k,
    decreases k - i,
{
    if i + 1 < k {
        lemma_varint_end_at(b, k, i + 1);
    }
}

/// The value read from the first bytes of `varint_bytes(v) + rest` is `v`.
proof fn lemma_varint_val(v: nat, rest: Seq<u8>)
    ensures
        varint_val(varint_bytes(v) + rest, varint_bytes(v).len()) == v,
    decreases v,
{
    let e = varint_bytes(v);
    let b = e + rest;
    if v >= 128 {
        lemma_varint_val(v / 128, rest);
        let t = varint_bytes(v / 128);
        assert(e.len() == t.len() + 1);
        assert(b.drop_first() =~= t + rest);
        assert(b[0] == (v % 128 + 128) as u8);
        assert((v % 128 + 128) as u8 % 128 == v % 128);
        assert(varint_val(b, e.len()) == (b[0] % 128) as nat + 128 * varint_val(b.drop_first(), t.len()));
        assert(v % 128 + 128 * (v / 128) == v);
    } else {
        assert(e.len() == 1);
        assert(b[0] == v as u8);
        assert(varint_val(b.drop_first(), 0) == 0);
        assert(varint_val(b, 1) == (b[0] % 128) as nat + 128 * varint_val(b.drop_first(), 0));
    }
}

/// A varint written by `put_varint` reads back as its value and its length.
proof fn lemma_varint_round_trip(v: u64, rest: Seq<u8>)
    ensures
        varint_decode(varint_bytes(v as nat) + rest) == Some((v as nat, varint_bytes(v as nat).len())),
{
    let e = varint_bytes(v as nat);
    let b = e + rest;
    assert(pow128(9) == 0x8000_0000_0000_0000) by {
        reveal_with_fuel(pow128, 10);
    }
    lemma_varint_shape(v as nat, 9);
    assert forall|j: int| 0 <= j < e.len() - 1 implies #[trigger] b[j] >= 128 by {
        assert(b[j] == e[j]);
    }
    assert(b[e.len() - 1] == e.last());
    lemma_varint_end_at(b, e.len(), 0);
    lemma_varint_val(v as nat, rest);
}

proof fn lemma_game_bytes_push(ms: Seq<Seq<char>>, m: Seq<char>)
    ensures
        game_bytes(ms.push(m)) == game_bytes(ms) + field_bytes(encode_utf8(m)),
    decreases ms.len(),
{
    if ms.len() == 0 {
        assert(ms.push(m).drop_first() =~= Seq::<Seq<char>>::empty());
        assert(ms.push(m)[0] == m);
        assert(game_bytes(ms.push(m).drop_first()) == Seq::<u8>::empty());
        assert(game_bytes(ms.push(m)) =~= field_bytes(encode_utf8(m)) + Seq::<u8>::empty());
        assert(game_bytes(ms) + field_bytes(encode_utf8(m)) =~= field_bytes(encode_utf8(m)));
    } else {
        lemma_game_bytes_push(ms.drop_first(), m);
        assert(ms.push(m).drop_first() =~= ms.drop_first().push(m));
        assert(ms.push(m)[0] == ms[0]);
        assert(game_bytes(ms.push(m)) =~= field_bytes(encode_utf8(ms[0])) + (game_bytes(
            ms.drop_first(),
        ) + field_bytes(encode_utf8(m))));
    }
}

proof fn lemma_dataset_bytes_push(gs: Seq<Seq<Seq<char>>>, g: Seq<Seq<char>>)
    ensures
        dataset_bytes(gs.push(g)) == dataset_bytes(gs) + field_bytes(game_bytes(g)),
    decreases gs.len(),
{
    if gs.len() == 0 {
        assert(gs.push(g).drop_first() =~= Seq::<Seq<Seq<char>>>::empty());
        assert(gs.push(g)[0] == g);
        assert(dataset_bytes(gs.push(g).drop_first()) == Seq::<u8>::empty());
        assert(dataset_bytes(gs.push(g)) =~= field_bytes(game_bytes(g)) + Seq::<u8>::empty());
        assert(dataset_bytes(gs) + field_bytes(game_bytes(g)) =~= field_bytes(game_bytes(g)));
    } else {
        lemma_dataset_bytes_push(gs.drop_first(), g);
        assert(gs.push(g).drop_first() =~= gs.drop_first().push(g));
        assert(gs.push(g)[0] == gs[0]);
        assert(dataset_bytes(gs.push(g)) =~= field_bytes(game_bytes(gs[0])) + (dataset_bytes(
            gs.drop_first(),
        ) + field_bytes(game_bytes(g))));
    }
}

/// Appends a length-delimited field number 1 holding `body`.
fn append_field(buf: &mut Vec<u8>, body: &[u8])
    ensures
        final(buf)@ == old(buf)@ + field_bytes(body@),
{
    buf.push(0x0A);
    put_varint(body.len() as u64, buf);
    let ghost start = buf@;
    let mut i: usize = 0;
    while i < body.len()
        invariant
            i <= body.len(),
            buf@ == start + body@.take(i as int),
        decreases body.len() - i,
    {
        proof {
            assert(body@.take(i + 1) =~= body@.take(i as int).push(body@[i as int]));
        }
        buf.push(body[i]);
        i = i + 1;
    }
    proof {
        assert(body@.take(body.len() as int) =~= body@);
        assert(buf@ =~= old(buf)@ + field_bytes(body@));
    }
}

/// The encoding of one game's message.
pub fn encode_game(moves: &Vec<String>) -> (r: Vec<u8>)
    ensures
        r@ == game_bytes(strings_view(moves@)),
{
    let mut r: Vec<u8> = Vec::new();
    let mut i: usize = 0;
    proof {
        assert(strings_view(moves@.take(0)) =~= Seq::<Seq<char>>::empty());
    }
    while i < moves.len()
        invariant
            i <= moves.len(),
            r@ == game_bytes(strings_view(moves@.take(i as int))),
        decreases moves.len() - i,
    {
        let text = moves[i].as_str();
        append_field(&mut r, text.as_bytes());
        proof {
            assert(strings_view(moves@.take(i + 1)) =~= strings_view(moves@.take(i as int)).push(
                moves@[i as int]@,
            ));
            lemma_game_bytes_push(strings_view(moves@.take(i as int)), moves@[i as int]@);
        }
        i = i + 1;
    }
    proof {
        assert(moves@.take(moves.len() as int) =~= moves@);
    }
    r
}

/// The persisted form of a dataset.
pub fn serialize_to_protobuf(dataset: &ChessDataSet) -> (r: Vec<u8>)
    ensures
        r@ == dataset_bytes(dataset@),
{
    let games = &dataset.games;
    let mut r: Vec<u8> = Vec::new();
    let mut i: usize = 0;
    proof {
        assert(dataset_games(games@.take(0)) =~= Seq::<Seq<Seq<char>>>::empty());
    }
    while i < games.len()
        invariant
            games == dataset.games,
            i <= games.len(),
            r@ == dataset_bytes(dataset_games(games@.take(i as int))),
        decreases games.len() - i,
    {
        let body = encode_game(&games[i].moves);
        append_field(&mut r, body.as_slice());
        proof {
            assert(dataset_games(games@.take(i + 1)) =~= dataset_games(games@.take(i as int)).push(
                games@[i as int]@,
            ));
            lemma_dataset_bytes_push(dataset_games(games@.take(i as int)), games@[i as int]@);
        }
        i = i + 1;
    }
    proof {
        assert(games@.take(games.len() as int) =~= games@);
    }
    r
}


/// A field written by `append_field` at `pos`, followed by `after`, parses
/// as field number 1 with wire type 2 around `body`.
proof fn lemma_field_round_trip(d: Seq<u8>, pos: int, body: Seq<u8>, after: Seq<u8>)
    requires
        0 <= pos,
        pos + field_bytes(body).len() + after.len() <= d.len(),
        d.len() <= u64::MAX,
        d.subrange(pos, pos + field_bytes(body).len() + after.len()) == field_bytes(body) + after,
    ensures
        parse_field(d, pos, pos + field_bytes(body).len() + after.len()) == Some(
            FieldModel {
                tag: 1,
                wire_type: 2,
                body_start: pos + field_bytes(body).len() - body.len(),
                body_end: pos + field_bytes(body).len(),
                next: pos + field_bytes(body).len(),
            },
        ),
        d.subrange(pos + field_bytes(body).len() - body.len(), pos + field_bytes(body).len()) == body,
        d.subrange(pos + field_bytes(body).len(), pos + field_bytes(body).len() + after.len()) == after,
{
    let vb = varint_bytes(body.len());
    let end = pos + field_bytes(body).len() + after.len();
    let sub = d.subrange(pos, end);
    assert(varint_bytes(10) =~= seq![0x0Au8]);
    assert(sub =~= varint_bytes(10u64 as nat) + (vb + body + after));
    lemma_varint_round_trip(10, vb + body + after);
    let p = pos + 1;
    assert(d.subrange(p, end) =~= vb + (body + after)) by {
        assert forall|i: int| 0 <= i < end - p implies d.subrange(p, end)[i] == (vb + (body + after))[i] by {
            assert(d.subrange(p, end)[i] == sub[i + 1]);
        }
    }
    lemma_varint_round_trip(body.len() as u64, body + after);
    let bs = p + vb.len();
    let be = bs + body.len();
    assert forall|i: int| 0 <= i < body.len() implies d.subrange(bs, be)[i] == body[i] by {
        assert(d.subrange(bs, be)[i] == sub[i + 1 + vb.len()]);
    }
    assert(d.subrange(bs, be) =~= body);
    assert forall|i: int| 0 <= i < after.len() implies d.subrange(be, end)[i] == after[i] by {
        assert(d.subrange(be, end)[i] == sub[i + 1 + vb.len() + body.len()]);
    }
    assert(d.subrange(be, end) =~= after);
}

proof fn lemma_parse_game_round_trip(d: Seq<u8>, pos: int, ms: Seq<Seq<char>>)
    requires
        0 <= pos,
        pos + game_bytes(ms).len() <= d.len(),
        d.len() <= u64::MAX,
        d.subrange(pos, pos + game_bytes(ms).len()) == game_bytes(ms),
    ensures
        parse_game(d, pos, pos + game_bytes(ms).len()) == Some(ms),
    decreases ms.len(),
{
    if ms.len() == 0 {
        assert(game_bytes(ms).len() == 0);
        assert(ms =~= Seq::<Seq<char>>::empty());
    } else {
        let m = ms[0];
        let body = encode_utf8(m);
        let tail = ms.drop_first();
        let g = game_bytes(tail);
        lemma_field_round_trip(d, pos, body, g);
        let next = pos + field_bytes(body).len();
        encode_utf8_valid_utf8(m);
        encode_utf8_decode_utf8(m);
        lemma_parse_game_round_trip(d, next, tail);
        assert(ms =~= seq![m] + tail);
    }
}

proof fn lemma_parse_dataset_round_trip(d: Seq<u8>, pos: int, gs: Seq<Seq<Seq<char>>>)
    requires
        0 <= pos,
        pos + dataset_bytes(gs).len() <= d.len(),
        d.len() <= u64::MAX,
        d.subrange(pos, pos + dataset_bytes(gs).len()) == dataset_bytes(gs),
    ensures
        parse_dataset(d, pos, pos + dataset_bytes(gs).len()) == Some(gs),
    decreases gs.len(),
{
    if gs.len() == 0 {
        assert(dataset_bytes(gs).len() == 0);
        assert(gs =~= Seq::<Seq<Seq<char>>>::empty());
    } else {
        let g = gs[0];
        let body = game_bytes(g);
        let tail = gs.drop_first();
        let rest = dataset_bytes(tail);
        lemma_field_round_trip(d, pos, body, rest);
        let next = pos + field_bytes(body).len();
        lemma_parse_game_round_trip(d, next - body.len(), g);
        lemma_parse_dataset_round_trip(d, next, tail);
        assert(gs =~= seq![g] + tail);
    }
}

/// Decoding the persisted form of a dataset gives back the same games, each
/// with the same moves, in the same order.
pub proof fn lemma_dataset_round_trip(ds: Seq<Seq<Seq<char>>>)
    requires
        dataset_bytes(ds).len() <= u64::MAX,
    ensures
        parse_dataset(dataset_bytes(ds), 0, dataset_bytes(ds).len() as int) == Some(ds),
{
    let d = dataset_bytes(ds);
    assert(d.subrange(0, d.len() as int) =~= d);
    lemma_parse_dataset_round_trip(d, 0, ds);
}

/// The persisted form of the chunk whose raw games are given as their move
/// tokens: the first `max` accepted games, each as its moves in coordinate
/// notation, encoded.
pub open spec fn chunk_bytes(games: Seq<Seq<Seq<char>>>, max: nat) -> Seq<u8> {
    dataset_bytes(replay_model(game_results(games), max).accepted)
}

/// Builds a chunk from its raw games: replays them until `max_games` are
/// accepted and encodes those. The bytes are a function of the games' tokens,
/// so building a chunk again from an unchanged corpus gives the same file.
pub fn build_chunk(games: &Vec<Vec<String>>, max_games: usize) -> (r: Vec<u8>)
    ensures
        r@ == chunk_bytes(games_view(games@), max_games as nat),
{
    let summary = replay_games(games, max_games);
    encode_chunk(&summary.games)
}

/// The persisted form of a chunk made of the replayer's accepted games.
pub fn encode_chunk(games: &Vec<Vec<String>>) -> (r: Vec<u8>)
    ensures
        r@ == dataset_bytes(games_view(games@)),
{
    let ds = dataset_from_games(games);
    serialize_to_protobuf(&ds)
}


proof fn lemma_varint_end_bounds(b: Seq<u8>, i: nat)
    ensures
        varint_end(b, i) == 0 || (i < varint_end(b, i) <= b.len() && varint_end(b, i) <= 10
            && b[varint_end(b, i) - 1] < 128),
    decreases 10 - i,
{
    if !(i >= 10 || i >= b.len()) && b[i as int] >= 128 {
        lemma_varint_end_bounds(b, i + 1);
    }
}

proof fn lemma_varint_val_bound(b: Seq<u8>, k: nat)
    requires
        1 <= k <= b.len(),
    ensures
        varint_val(b, k) < pow128((k - 1) as nat) * ((b[k - 1] % 128) as nat + 1),
    decreases k,
{
    if k == 1 {
        assert(varint_val(b.drop_first(), 0) == 0);
        assert(pow128(0) == 1);
    } else {
        let t = b.drop_first();
        lemma_varint_val_bound(t, (k - 1) as nat);
        assert(t[k - 2] == b[k - 1]);
        let p = pow128((k - 2) as nat);
        let c = (b[k - 1] % 128) as nat + 1;
        let w = varint_val(t, (k - 1) as nat);
        assert(pow128((k - 1) as nat) == 128 * p);
        assert((b[0] % 128) as nat + 128 * w < 128 * p * c) by (nonlinear_arith)
            requires
                w < p * c,
                ((b[0] % 128) as nat) < 128,
        ;
    }
}

proof fn lemma_pow128_mono(a: nat, b: nat)
    requires
        a <= b,
    ensures
        pow128(a) <= pow128(b),
    decreases b,
{
    if a < b {
        lemma_pow128_mono(a, (b - 1) as nat);
    }
}

/// A varint that decodes is 1 to 10 bytes long, lies within `b`, and its value fits in 64 bits.
proof fn lemma_varint_decode_bounds(b: Seq<u8>)
    ensures
        varint_decode(b) matches Some((v, k)) ==> 1 <= k <= b.len() && k <= 10 && v <= u64::MAX,
{
    lemma_varint_end_bounds(b, 0);
    if let Some((v, k)) = varint_decode(b) {
        lemma_varint_val_bound(b, k);
        assert(pow128(9) == 0x8000_0000_0000_0000) by {
            reveal_with_fuel(pow128, 10);
        }
        let p = pow128((k - 1) as nat);
        let c = (b[k - 1] % 128) as nat + 1;
        if k < 10 {
            lemma_pow128_mono((k - 1) as nat, 8);
            assert(pow128(9) == 128 * pow128(8));
            assert(p * c <= pow128(8) * 128) by (nonlinear_arith)
                requires
                    p <= pow128(8),
                    c <= 128,
            ;
        } else {
            assert(c <= 2);
            assert(p * c <= p * 2) by (nonlinear_arith)
                requires
                    c <= 2,
            ;
        }
    }
}

/// A field's position and kind, as read from the bytes.
struct FieldSpan {
    tag: u64,
    wire_type: u64,
    body_start: usize,
    body_end: usize,
    next: usize,
}

/// Reads the field that starts at `pos` of a message that ends at `end`.
fn read_field(data: &[u8], pos: usize, end: usize) -> (r: Option<FieldSpan>)
    requires
        pos < end <= data.len(),
    ensures
        match parse_field(data@, pos as int, end as int) {
            None => r is None,
            Some(f) => r matches Some(x) && x.tag == f.tag && x.wire_type == f.wire_type
                && x.body_start == f.body_start && x.body_end == f.body_end && x.next == f.next,
        },
        r matches Some(x) ==> pos < x.next <= end && x.body_start <= x.body_end <= end,
{
    proof {
        lemma_varint_decode_bounds(data@.subrange(pos as int, end as int));
    }
    let (tag32, wt8, left) = match read_key(data, pos, end) {
        Some(kv) => kv,
        None => {
            return None;
        },
    };
    let p = end - left;
    let wt = wt8 as u64;
    let tag = tag32 as u64;
    proof {
        lemma_varint_decode_bounds(data@.subrange(p as int, end as int));
    }
    if wt == 0 {
        match read_varint(data, p, end) {
            None => None,
            Some((_, left2)) => Some(
                FieldSpan { tag, wire_type: 0, body_start: p, body_end: p, next: end - left2 },
            ),
        }
    } else if wt == 1 {
        if end - p >= 8 {
            Some(FieldSpan { tag, wire_type: 1, body_start: p, body_end: p, next: p + 8 })
        } else {
            None
        }
    } else if wt == 2 {
        match read_varint(data, p, end) {
            None => None,
            Some((len, left2)) => {
                let q = end - left2;
                if len <= (end - q) as u64 {
                    let be = q + len as usize;
                    Some(FieldSpan { tag, wire_type: 2, body_start: q, body_end: be, next: be })
                } else {
                    None
                }
            },
        }
    } else if wt == 5 {
        if end - p >= 4 {
            Some(FieldSpan { tag, wire_type: 5, body_start: p, body_end: p, next: p + 4 })
        } else {
            None
        }
    } else {
        None
    }
}

/// The bytes `data[from..to]`.
fn copy_range(data: &[u8], from: usize, to: usize) -> (r: Vec<u8>)
    requires
        from <= to <= data.len(),
    ensures
        r@ == data@.subrange(from as int, to as int),
{
    let mut r: Vec<u8> = Vec::new();
    let mut i: usize = from;
    while i < to
        invariant
            from <= i <= to <= data.len(),
            r@ == data@.subrange(from as int, i as int),
        decreases to - i,
    {
        proof {
            assert(data@.subrange(from as int, i + 1) =~= data@.subrange(from as int, i as int).push(
                data@[i as int],
            ));
        }
        r.push(data[i]);
        i = i + 1;
    }
    r
}

/// `acc` followed by what a parse gave, or nothing when it failed.
pub open spec fn prepend<T>(acc: Seq<T>, r: Option<Seq<T>>) -> Option<Seq<T>> {
    match r {
        Some(x) => Some(acc + x),
        None => None,
    }
}

/// Decodes the game message between `start` and `end`.
fn decode_game(data: &[u8], start: usize, end: usize) -> (r: Option<Vec<String>>)
    requires
        start <= end <= data.len(),
    ensures
        match parse_game(data@, start as int, end as int) {
            Some(ms) => r matches Some(v) && strings_view(v@) == ms,
            None => r is None,
        },
{
    let ghost d = data@;
    let mut out: Vec<String> = Vec::new();
    let mut pos = start;
    proof {
        assert(strings_view(out@) + parse_game(d, start as int, end as int).unwrap_or(Seq::empty())
            =~= parse_game(d, start as int, end as int).unwrap_or(Seq::empty()));
    }
    while pos < end
        invariant
            d == data@,
            start <= pos <= end <= data.len(),
            prepend(strings_view(out@), parse_game(d, pos as int, end as int)) == parse_game(
                d,
                start as int,
                end as int,
            ),
        decreases end - pos,
    {
        let f = match read_field(data, pos, end) {
            Some(f) => f,
            None => {
                return None;
            },
        };
        let ghost rest = parse_game(d, f.next as int, end as int);
        if f.tag == 1 {
            if f.wire_type != 2 {
                return None;
            }
            let bytes = copy_range(data, f.body_start, f.body_end);
            let s = match utf8_string(bytes) {
                Some(s) => s,
                None => {
                    return None;
                },
            };
            proof {
                encode_utf8_decode_utf8(s@);
                assert(strings_view(out@.push(s)) =~= strings_view(out@).push(s@));
                if let Some(x) = rest {
                    assert(strings_view(out@) + (seq![s@] + x) =~= strings_view(out@).push(s@) + x);
                }
            }
            out.push(s);
        }
        pos = f.next;
    }
    proof {
        assert(strings_view(out@) + Seq::<Seq<char>>::empty() =~= strings_view(out@));
    }
    Some(out)
}

/// Error from decoding a persisted dataset.
#[derive(Clone, Copy, Debug, PartialEq, Eq, Structural)]
pub enum DecodeError {
    /// The bytes are not a dataset in the wire format.
    Malformed,
}

/// Decodes the persisted form of a dataset.
pub fn deserialize_from_protobuf(data: &[u8]) -> (r: Result<ChessDataSet, DecodeError>)
    ensures
        match parse_dataset(data@, 0, data@.len() as int) {
            Some(gs) => r matches Ok(ds) && ds@ == gs,
            None => r == Err::<ChessDataSet, DecodeError>(DecodeError::Malformed),
        },
{
    let ghost d = data@;
    let end = data.len();
    let mut out: Vec<ChessGame> = Vec::new();
    let mut pos: usize = 0;
    proof {
        assert(dataset_games(out@) =~= Seq::<Seq<Seq<char>>>::empty());
        if let Some(x) = parse_dataset(d, 0, end as int) {
            assert(Seq::<Seq<Seq<char>>>::empty() + x =~= x);
        }
    }
    while pos < end
        invariant
            d == data@,
            end == data.len(),
            pos <= end,
            prepend(dataset_games(out@), parse_dataset(d, pos as int, end as int)) == parse_dataset(
                d,
                0,
                end as int,
            ),
        decreases end - pos,
    {
        let f = match read_field(data, pos, end) {
            Some(f) => f,
            None => {
                return Err(DecodeError::Malformed);
            },
        };
        let ghost rest = parse_dataset(d, f.next as int, end as int);
        if f.tag == 1 {
            if f.wire_type != 2 {
                return Err(DecodeError::Malformed);
            }
            let moves = match decode_game(data, f.body_start, f.body_end) {
                Some(m) => m,
                None => {
                    return Err(DecodeError::Malformed);
                },
            };
            proof {
                let g = strings_view(moves@);
                assert(dataset_games(out@.push(ChessGame { moves })) =~= dataset_games(out@).push(g));
                if let Some(x) = rest {
                    assert(dataset_games(out@) + (seq![g] + x) =~= dataset_games(out@).push(g) + x);
                }
            }
            out.push(ChessGame { moves });
        }
        pos = f.next;
    }
    proof {
        assert(dataset_games(out@) + Seq::<Seq<Seq<char>>>::empty() =~= dataset_games(out@));
    }
    Ok(ChessDataSet { games: out })
}

} // verus!
