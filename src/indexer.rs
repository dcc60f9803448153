//! The offset index: one forward pass over the corpus, line by line, that
//! records the byte offset at which each game's header block begins.

use crate::replay::strings_view;
use vstd::prelude::*;
use vstd::string::*;
use vstd::utf8::encode_utf8;

verus! {

/// The literal that opens a new game's header block.
pub open spec fn header_prefix() -> Seq<char> {
    seq!['[', 'E', 'v', 'e', 'n', 't', ' ']
}

/// A line that opens a game's header block.
pub open spec fn is_header_line(l: Seq<char>) -> bool {
    l.len() >= 7 && l.take(7) == header_prefix()
}

/// Unicode `White_Space`, the set that `char::is_whitespace` and `str::trim` use.
pub open spec fn is_white_space(c: char) -> bool {
    let u = c as u32;
    (0x9 <= u <= 0xD) || u == 0x20 || u == 0x85 || u == 0xA0 || u == 0x1680 || (0x2000 <= u
        <= 0x200A) || u == 0x2028 || u == 0x2029 || u == 0x202F || u == 0x205F || u == 0x3000
}

/// A line that holds nothing but white space: the separator between blocks.
pub open spec fn is_blank_line(l: Seq<char>) -> bool {
    forall|i: int| 0 <= i < l.len() ==> #[trigger] is_white_space(l[i])
}

/// Length of a line in bytes, as UTF-8.
pub open spec fn line_bytes(l: Seq<char>) -> nat {
    encode_utf8(l).len()
}

/// Whether a line starts a game, given whether a game's block is open.
pub open spec fn starts_game(in_game: bool, l: Seq<char>) -> bool {
    is_header_line(l) && !in_game
}

/// Whether a game's block is open after a line.
pub open spec fn next_in_game(in_game: bool, l: Seq<char>) -> bool {
    if starts_game(in_game, l) {
        true
    } else if is_blank_line(l) {
        false
    } else {
        in_game
    }
}

/// Byte offset just past the given lines, each followed by one terminator byte.
pub open spec fn offset_after(ls: Seq<Seq<char>>) -> nat
    decreases ls.len(),
{
    if ls.len() == 0 {
        0
    } else {
        offset_after(ls.drop_last()) + line_bytes(ls.last()) + 1
    }
}

/// Whether a game's block is open after the given lines.
pub open spec fn in_game_after(ls: Seq<Seq<char>>) -> bool
    decreases ls.len(),
{
    if ls.len() == 0 {
        false
    } else {
        next_in_game(in_game_after(ls.drop_last()), ls.last())
    }
}

/// The index of a corpus given as its lines: the offset of each line that
/// starts a game, in corpus order.
pub open spec fn index_of(ls: Seq<Seq<char>>) -> Seq<nat>
    decreases ls.len(),
{
    if ls.len() == 0 {
        Seq::empty()
    } else {
        let prev = index_of(ls.drop_last());
        if starts_game(in_game_after(ls.drop_last()), ls.last()) {
            prev.push(offset_after(ls.drop_last()))
        } else {
            prev
        }
    }
}

pub open spec fn offsets_view(v: Seq<u64>) -> Seq<nat> {
    v.map_values(|o: u64| o as nat)
}

/// Whether `c` is white space in the sense of `is_white_space`.
pub fn char_is_white_space(c: char) -> (r: bool)
    ensures
        r == is_white_space(c),
{
    let u = c as u32;
    (0x9 <= u && u <= 0xD) || u == 0x20 || u == 0x85 || u == 0xA0 || u == 0x1680 || (0x2000 <= u
        && u <= 0x200A) || u == 0x2028 || u == 0x2029 || u == 0x202F || u == 0x205F || u == 0x3000
}

/// Whether a line opens a game's header block.
pub fn line_is_header(line: &str) -> (r: bool)
    ensures
        r == is_header_line(line@),
{
    let n = line.unicode_len();
    if n < 7 {
        return false;
    }
    let r = line.get_char(0) == '[' && line.get_char(1) == 'E' && line.get_char(2) == 'v'
        && line.get_char(3) == 'e' && line.get_char(4) == 'n' && line.get_char(5) == 't'
        && line.get_char(6) == ' ';
    proof {
        if r {
            assert(line@.take(7) =~= header_prefix());
        } else {
            assert(line@.take(7) != header_prefix() || line@.take(7)[0] != '[') by {
                if line@.take(7) == header_prefix() {
                    assert(line@.take(7)[1] == line@[1]);
                    assert(line@.take(7)[2] == line@[2]);
                    assert(line@.take(7)[3] == line@[3]);
                    assert(line@.take(7)[4] == line@[4]);
                    assert(line@.take(7)[5] == line@[5]);
                    assert(line@.take(7)[6] == line@[6]);
                }
            }
        }
    }
    r
}

/// Whether a line holds nothing but white space.
pub fn line_is_blank(line: &str) -> (r: bool)
    ensures
        r == is_blank_line(line@),
{
    let n = line.unicode_len();
    let mut i: usize = 0;
    while i < n
        invariant
            n == line@.len(),
            i <= n,
            forall|j: int| 0 <= j < i ==> #[trigger] is_white_space(line@[j]),
        decreases n - i,
    {
        if !char_is_white_space(line.get_char(i)) {
            return false;
        }
        i = i + 1;
    }
    true
}

/// State of an index pass.
pub struct IndexerState {
    /// Byte offset of the next line.
    pub offset: nat,
    /// Whether a game's block is open.
    pub in_game: bool,
}

/// Builds the index one line at a time, so that a corpus of any size can be
/// streamed through it.
pub struct Indexer {
    offset: u64,
    in_game: bool,
}

impl View for Indexer {
    type V = IndexerState;

    closed spec fn view(&self) -> IndexerState {
        IndexerState { offset: self.offset as nat, in_game: self.in_game }
    }
}

impl Indexer {
    /// An index pass at the corpus's first byte.
    pub fn new() -> (r: Indexer)
        ensures
            r@ == (IndexerState { offset: 0, in_game: false }),
    {
        Indexer { offset: 0, in_game: false }
    }

    /// Byte offset of the next line.
    pub fn offset(&self) -> (r: u64)
        ensures
            r == self@.offset,
    {
        self.offset
    }

    /// Takes the next line of the corpus, without its terminator; returns the
    /// line's offset when it starts a game.
    pub fn feed(&mut self, line: &str) -> (r: Option<u64>)
        requires
            old(self)@.offset + line_bytes(line@) + 1 <= u64::MAX,
        ensures
            r == (if starts_game(old(self)@.in_game, line@) {
                Some(old(self)@.offset as u64)
            } else {
                None
            }),
            final(self)@ == (IndexerState {
                offset: old(self)@.offset + line_bytes(line@) + 1,
                in_game: next_in_game(old(self)@.in_game, line@),
            }),
    {
        let mut r = None;
        if !self.in_game && line_is_header(line) {
            r = Some(self.offset);
            self.in_game = true;
        } else if line_is_blank(line) {
            self.in_game = false;
        }
        let n = line.as_bytes().len();
        self.offset = self.offset + n as u64 + 1;
        r
    }
}

/// The index of a corpus given as its lines (without terminators).
pub fn build_index(lines: &Vec<String>) -> (r: Vec<u64>)
    requires
        offset_after(strings_view(lines@)) <= u64::MAX,
    ensures
        offsets_view(r@) == index_of(strings_view(lines@)),
{
    let ghost ls = strings_view(lines@);
    let mut ix = Indexer::new();
    let mut r: Vec<u64> = Vec::new();
    let mut i: usize = 0;
    proof {
        assert(ls.take(0) =~= Seq::<Seq<char>>::empty());
        assert(offsets_view(r@) =~= index_of(ls.take(0)));
    }
    while i < lines.len()
        invariant
            ls == strings_view(lines@),
            i <= lines.len(),
            offset_after(ls) <= u64::MAX,
            ix@ == (IndexerState { offset: offset_after(ls.take(i as int)), in_game: in_game_after(ls.take(i as int)) }),
            offsets_view(r@) == index_of(ls.take(i as int)),
        decreases lines.len() - i,
    {
        proof {
            assert(ls.take(i + 1).drop_last() =~= ls.take(i as int));
            assert(ls.take(i + 1).last() == lines@[i as int]@);
            lemma_offset_after_prefix(ls, i + 1);
        }
        let line = lines[i].as_str();
        let found = ix.feed(line);
        if let Some(o) = found {
            proof {
                assert(offsets_view(r@.push(o)) =~= offsets_view(r@).push(o as nat));
            }
            r.push(o);
        }
        i = i + 1;
    }
    proof {
        assert(ls.take(lines.len() as int) =~= ls);
    }
    r
}

/// The offset past a prefix of the lines is at most the offset past all of them.
proof fn lemma_offset_after_prefix(ls: Seq<Seq<char>>, k: int)
    requires
        0 <= k <= ls.len(),
    ensures
        offset_after(ls.take(k)) <= offset_after(ls),
    decreases ls.len(),
{
    if k < ls.len() {
        assert(ls.drop_last().take(k) =~= ls.take(k));
        lemma_offset_after_prefix(ls.drop_last(), k);
    } else {
        assert(ls.take(k) =~= ls);
    }
}


/// Every entry of the index lies before the end of the lines scanned.
proof fn lemma_index_below(ls: Seq<Seq<char>>)
    ensures
        forall|i: int| 0 <= i < index_of(ls).len() ==> #[trigger] index_of(ls)[i] < offset_after(ls),
    decreases ls.len(),
{
    if ls.len() > 0 {
        let p = ls.drop_last();
        lemma_index_below(p);
        let prev = index_of(p);
        assert(offset_after(p) < offset_after(ls));
        assert forall|i: int| 0 <= i < index_of(ls).len() implies #[trigger] index_of(ls)[i]
            < offset_after(ls) by {
            if i < prev.len() {
                assert(index_of(ls)[i] == prev[i]);
            } else {
                assert(index_of(ls)[i] == offset_after(p));
            }
        }
    }
}

/// Index entries increase along the corpus: each entry is at most the next.
pub proof fn lemma_index_sorted(ls: Seq<Seq<char>>)
    ensures
        forall|i: int, j: int|
            0 <= i < j < index_of(ls).len() ==> index_of(ls)[i] < index_of(ls)[j],
        forall|i: int|
            0 <= i && i + 1 < index_of(ls).len() ==> index_of(ls)[i] <= #[trigger] index_of(ls)[i
                + 1],
    decreases ls.len(),
{
    if ls.len() > 0 {
        let p = ls.drop_last();
        lemma_index_sorted(p);
        lemma_index_below(p);
        let prev = index_of(p);
        let ix = index_of(ls);
        assert forall|i: int, j: int| 0 <= i < j < ix.len() implies ix[i] < ix[j] by {
            assert(ix[i] == prev[i]);
            if j < prev.len() {
                assert(ix[j] == prev[j]);
            } else {
                assert(ix[j] == offset_after(p));
                assert(prev[i] < offset_after(p));
            }
        }
        assert forall|i: int| 0 <= i && i + 1 < ix.len() implies ix[i] <= #[trigger] ix[i + 1] by {
            assert(ix[i] < ix[i + 1]);
        }
    }
}

/// An index shifted by a base offset.
pub open spec fn shift(s: Seq<nat>, base: nat) -> Seq<nat> {
    s.map_values(|e: nat| e + base)
}

/// Where no game block is open after the first `k` lines, the scan of the
/// remaining lines on its own agrees with the scan of the whole.
proof fn lemma_scan_split(ls: Seq<Seq<char>>, k: int)
    requires
        0 <= k <= ls.len(),
        !in_game_after(ls.take(k)),
    ensures
        in_game_after(ls) == in_game_after(ls.skip(k)),
        offset_after(ls) == offset_after(ls.take(k)) + offset_after(ls.skip(k)),
        index_of(ls) == index_of(ls.take(k)) + shift(index_of(ls.skip(k)), offset_after(ls.take(k))),
    decreases ls.len(),
{
    if ls.len() == k {
        assert(ls.take(k) =~= ls);
        assert(ls.skip(k) =~= Seq::<Seq<char>>::empty());
        assert(shift(Seq::<nat>::empty(), offset_after(ls.take(k))) =~= Seq::<nat>::empty());
        assert(index_of(ls.take(k)) + Seq::<nat>::empty() =~= index_of(ls.take(k)));
    } else {
        let p = ls.drop_last();
        assert(p.take(k) =~= ls.take(k));
        lemma_scan_split(p, k);
        let t = ls.skip(k);
        assert(t.drop_last() =~= p.skip(k));
        assert(t.last() == ls.last());
        let base = offset_after(ls.take(k));
        let prev = index_of(p.skip(k));
        if starts_game(in_game_after(p), ls.last()) {
            assert(shift(prev.push(offset_after(p.skip(k))), base) =~= shift(prev, base).push(
                offset_after(p.skip(k)) + base,
            ));
            assert(index_of(ls.take(k)) + shift(prev, base).push(offset_after(p.skip(k)) + base)
                =~= (index_of(ls.take(k)) + shift(prev, base)).push(offset_after(p.skip(k)) + base));
        }
    }
}

/// The line at which the scan records entry `n` of the index.
proof fn lemma_entry_line(ls: Seq<Seq<char>>, n: int) -> (k: int)
    requires
        0 <= n < index_of(ls).len(),
    ensures
        0 <= k < ls.len(),
        !in_game_after(ls.take(k)),
        is_header_line(ls[k]),
        offset_after(ls.take(k)) == index_of(ls)[n],
        index_of(ls.take(k)).len() == n,
    decreases ls.len(),
{
    let p = ls.drop_last();
    if n < index_of(p).len() {
        let k = lemma_entry_line(p, n);
        assert(p.take(k) =~= ls.take(k));
        k
    } else {
        assert(ls.take(ls.len() - 1) =~= p);
        (ls.len() - 1) as int
    }
}

/// Locating game `n` through the index and scanning the corpus from there
/// finds the same games as the full scan from the start: entry `n` is the
/// offset of a line that opens a game's header block, and the index of the
/// corpus from that line on, shifted by that offset, is the full index from
/// entry `n` on.
pub proof fn lemma_locate_then_scan(ls: Seq<Seq<char>>, n: int)
    requires
        0 <= n < index_of(ls).len(),
    ensures
        exists|k: int|
            0 <= k < ls.len() && offset_after(ls.take(k)) == index_of(ls)[n] && is_header_line(
                #[trigger] ls[k],
            ) && shift(index_of(ls.skip(k)), index_of(ls)[n]) == index_of(ls).skip(n),
{
    let k = lemma_entry_line(ls, n);
    lemma_scan_split(ls, k);
    let head = index_of(ls.take(k));
    let tail = shift(index_of(ls.skip(k)), index_of(ls)[n]);
    assert((head + tail).skip(n) =~= tail);
}

} // verus!
