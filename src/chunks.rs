//! Partition of a game range into fixed-size, independently processable chunks.

use vstd::prelude::*;

verus! {

/// Number of chunks needed to cover `total` games with chunks of `size` games.
pub open spec fn chunk_count_spec(total: nat, size: nat) -> nat
    recommends
        size > 0,
{
    ((total + size - 1) / size as int) as nat
}

/// First game of chunk `id`.
pub open spec fn chunk_start_spec(size: nat, id: nat) -> nat {
    id * size
}

/// Number of games in chunk `id`: the full size, or the remainder for the last chunk.
pub open spec fn chunk_len_spec(total: nat, size: nat, id: nat) -> nat {
    if total >= (id + 1) * size {
        size
    } else {
        (total - id * size) as nat
    }
}

/// Number of chunks that cover `total` games at `size` games each (the last one may be short).
pub fn chunk_count(total: usize, size: usize) -> (r: usize)
    requires
        size > 0,
    ensures
        r == chunk_count_spec(total as nat, size as nat),
        r * size >= total,
        r == 0 || (r - 1) * size < total,
{
    let q = total / size;
    proof {
        assert(total % size != 0 ==> q < total) by (nonlinear_arith)
            requires
                size > 0,
                q == total / size,
        ;
    }
    let r: usize = if total % size == 0 { q } else { q + 1 };
    proof {
        lemma_chunk_count(total as nat, size as nat);
    }
    r
}

proof fn lemma_chunk_count(total: nat, size: nat)
    requires
        size > 0,
    ensures
        chunk_count_spec(total, size) == (if total % size == 0 { total / size } else { total / size + 1 }),
        chunk_count_spec(total, size) * size >= total,
        chunk_count_spec(total, size) == 0 || (chunk_count_spec(total, size) - 1) * size < total,
{
    let q = total / size;
    let m = total % size;
    assert(total == q * size + m) by (nonlinear_arith)
        requires
            size > 0,
            q == total / size,
            m == total % size,
    ;
    assert(0 <= m < size) by (nonlinear_arith)
        requires
            size > 0,
            m == total % size,
    ;
    let c = (total + size - 1) / size as int;
    if m == 0 {
        assert(total + size - 1 == q * size + (size - 1));
        assert(c == q) by (nonlinear_arith)
            requires
                total + size - 1 == q * size + (size - 1),
                size > 0,
                c == (total + size - 1) / size as int,
        ;
    } else {
        assert(total + size - 1 == (q + 1) * size + (m - 1)) by (nonlinear_arith)
            requires
                total == q * size + m,
        ;
        assert(c == q + 1) by (nonlinear_arith)
            requires
                total + size - 1 == (q + 1) * size + (m - 1),
                0 <= m - 1 < size,
                size > 0,
                c == (total + size - 1) / size as int,
        ;
    }
    let cc = chunk_count_spec(total, size);
    assert(cc * size >= total) by (nonlinear_arith)
        requires
            total == q * size + m,
            0 <= m < size,
            cc == (if m == 0 { q } else { q + 1 }),
    ;
    assert(cc == 0 || (cc - 1) * size < total) by (nonlinear_arith)
        requires
            total == q * size + m,
            0 <= m < size,
            cc == (if m == 0 { q } else { q + 1 }),
            size > 0,
    ;
}

/// The games of chunk `id`, as its first game and its number of games.
pub fn chunk_range(total: usize, size: usize, id: usize) -> (r: (usize, usize))
    requires
        size > 0,
        id < chunk_count_spec(total as nat, size as nat),
    ensures
        r.0 == chunk_start_spec(size as nat, id as nat),
        r.1 == chunk_len_spec(total as nat, size as nat, id as nat),
        r.1 > 0,
        r.0 + r.1 <= total,
{
    proof {
        lemma_chunk_count(total as nat, size as nat);
        let c = chunk_count_spec(total as nat, size as nat);
        assert(id * size <= (c - 1) * size) by (nonlinear_arith)
            requires
                id <= c - 1,
                size > 0,
        ;
    }
    let start = id * size;
    let rest = total - start;
    let len = if rest >= size { size } else { rest };
    proof {
        assert((id + 1) * size == id * size + size) by (nonlinear_arith);
    }
    (start, len)
}

/// The chunks tile `[0, total)`: the first starts at game 0, each chunk begins
/// where the previous one ends, and the last one ends at `total`.
pub proof fn lemma_chunks_tile(total: nat, size: nat)
    requires
        size > 0,
    ensures
        chunk_count_spec(total, size) > 0 ==> chunk_start_spec(size, 0) == 0,
        forall|id: nat|
            #![trigger chunk_len_spec(total, size, id)]
            id + 1 < chunk_count_spec(total, size) ==> chunk_start_spec(size, id) + chunk_len_spec(
                total,
                size,
                id,
            ) == chunk_start_spec(size, id + 1),
        chunk_count_spec(total, size) > 0 ==> chunk_start_spec(size, (chunk_count_spec(total, size) - 1) as nat)
            + chunk_len_spec(total, size, (chunk_count_spec(total, size) - 1) as nat) == total,
{
    lemma_chunk_count(total, size);
    let c = chunk_count_spec(total, size);
    assert forall|id: nat|
        #![trigger chunk_len_spec(total, size, id)]
        id + 1 < c implies chunk_start_spec(size, id) + chunk_len_spec(total, size, id)
            == chunk_start_spec(size, id + 1) by {
        assert((id + 1) * size <= (c - 1) * size) by (nonlinear_arith)
            requires
                id + 1 <= c - 1,
                size > 0,
        ;
        assert((id + 1) * size == id * size + size) by (nonlinear_arith);
    }
    if c > 0 {
        let last = (c - 1) as nat;
        assert((last + 1) * size == c * size);
        assert(last * size < total);
        if total >= (last + 1) * size {
            assert(total == c * size);
            assert((last + 1) * size == last * size + size) by (nonlinear_arith);
        }
    }
}

} // verus!
