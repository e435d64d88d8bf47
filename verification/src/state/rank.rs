//! The rank of an arrangement of pieces among all arrangements of the same
//! pieces, by which the indexers number permutations.
use vstd::prelude::*;
use crate::counting::{count, lemma_count_bounds, lemma_count_take, lemma_count_take_le};
use crate::square1::{is_black_corner, is_edge, is_white_corner, Square1};

verus! {

/// The pieces of `s` that satisfy `kind`, in their order.
pub open spec fn pick(s: Seq<u8>, kind: spec_fn(u8) -> bool) -> Seq<u8>
    decreases s.len(),
{
    if s.len() == 0 {
        Seq::empty()
    } else if kind(s.last()) {
        pick(s.drop_last(), kind).push(s.last())
    } else {
        pick(s.drop_last(), kind)
    }
}

/// The kind of the pieces greater than `p`.
pub open spec fn above(p: u8) -> spec_fn(u8) -> bool {
    |q: u8| q > p
}

/// The factorial of `n`.
pub open spec fn fact(n: int) -> int
    decreases n,
{
    if n <= 0 {
        1
    } else {
        n * fact(n - 1)
    }
}

/// The rank of an arrangement: for each piece the number of greater pieces
/// before it, weighted by the factorial of its position.
pub open spec fn lehmer(x: Seq<u8>) -> int
    decreases x.len(),
{
    if x.len() == 0 {
        0
    } else {
        lehmer(x.drop_last()) + count(x.drop_last(), above(x.last())) * fact(x.len() - 1)
    }
}

pub proof fn lemma_fact_values()
    ensures
        fact(0) == 1,
        fact(1) == 1,
        fact(2) == 2,
        fact(3) == 6,
        fact(4) == 24,
        fact(5) == 120,
        fact(6) == 720,
        fact(7) == 5040,
        fact(8) == 40320,
{
    reveal_with_fuel(fact, 10);
}

pub proof fn lemma_fact_positive(n: int)
    ensures
        fact(n) >= 1,
    decreases n,
{
    if n > 0 {
        lemma_fact_positive(n - 1);
        assert(n * fact(n - 1) >= 1) by (nonlinear_arith)
            requires
                n >= 1,
                fact(n - 1) >= 1,
        ;
    }
}

pub proof fn lemma_fact_monotone(a: int, b: int)
    requires
        a <= b,
    ensures
        fact(a) <= fact(b),
    decreases b - a,
{
    if a < b {
        lemma_fact_monotone(a, b - 1);
        lemma_fact_positive(b - 1);
        if b > 0 {
            assert(b * fact(b - 1) >= fact(b - 1)) by (nonlinear_arith)
                requires
                    b >= 1,
                    fact(b - 1) >= 1,
            ;
        }
    }
}

/// The rank of an arrangement is below the number of arrangements.
pub proof fn lemma_lehmer_bound(x: Seq<u8>)
    ensures
        0 <= lehmer(x) < fact(x.len() as int),
    decreases x.len(),
{
    if x.len() > 0 {
        let n = x.len() as int;
        lemma_lehmer_bound(x.drop_last());
        lemma_count_bounds(x.drop_last(), above(x.last()));
        lemma_fact_positive(n - 1);
        let h = count(x.drop_last(), above(x.last()));
        let f = fact(n - 1);
        assert(0 <= h * f <= (n - 1) * f) by (nonlinear_arith)
            requires
                0 <= h <= n - 1,
                f >= 1,
        ;
        assert(n * f == (n - 1) * f + f) by (nonlinear_arith);
    }
}

/// There are as many picked pieces as pieces of the kind.
pub proof fn lemma_pick_len(s: Seq<u8>, kind: spec_fn(u8) -> bool)
    ensures
        pick(s, kind).len() == count(s, kind),
        forall|i: int| 0 <= i < pick(s, kind).len() ==> kind(#[trigger] pick(s, kind)[i]),
    decreases s.len(),
{
    if s.len() > 0 {
        lemma_pick_len(s.drop_last(), kind);
    }
}

/// Picking from one piece more.
pub proof fn lemma_pick_take(s: Seq<u8>, i: int, kind: spec_fn(u8) -> bool)
    requires
        0 <= i < s.len(),
    ensures
        pick(s.take(i + 1), kind) == if kind(s[i]) {
            pick(s.take(i), kind).push(s[i])
        } else {
            pick(s.take(i), kind)
        },
{
    assert(s.take(i + 1).drop_last() =~= s.take(i));
}

/// The number of pieces of a list that are greater than `piece`.
pub fn count_higher(list: &Vec<u8>, piece: u8) -> (n: usize)
    ensures
        n == count(list@, above(piece)),
        n <= list@.len(),
{
    let mut n: usize = 0;
    let mut i: usize = 0;
    assert(list@.take(0).len() == 0);
    while i < list.len()
        invariant
            i <= list@.len(),
            n == count(list@.take(i as int), above(piece)),
            n <= i,
        decreases list@.len() - i,
    {
        proof {
            lemma_count_take(list@, i as int, above(piece));
        }
        if list[i] > piece {
            n += 1;
        }
        i += 1;
    }
    assert(list@.take(list@.len() as int) =~= list@);
    n
}

/// The kinds of pieces that are ranked apart.
#[derive(Clone, Copy, Debug)]
pub enum PieceKind {
    Edge,
    BlackCorner,
    WhiteCorner,
}

impl PieceKind {
    /// The pieces of the kind.
    pub open spec fn holds(self) -> spec_fn(u8) -> bool {
        match self {
            PieceKind::Edge => is_edge(),
            PieceKind::BlackCorner => is_black_corner(),
            PieceKind::WhiteCorner => is_white_corner(),
        }
    }

    /// Whether `piece` is of the kind.
    pub fn has(self, piece: u8) -> (r: bool)
        ensures
            r == (self.holds())(piece),
    {
        match self {
            PieceKind::Edge => piece % 2 == 1,
            PieceKind::BlackCorner => piece % 2 == 0 && piece < 8,
            PieceKind::WhiteCorner => piece % 2 == 0 && piece >= 8,
        }
    }
}

/// The pieces of a kind that are ranked: all of them, or all but the first.
pub open spec fn ranked_pieces(s: Seq<u8>, kind: PieceKind, skip_first: bool) -> Seq<u8> {
    if skip_first && pick(s, kind.holds()).len() > 0 {
        pick(s, kind.holds()).drop_first()
    } else {
        pick(s, kind.holds())
    }
}

/// Ranking one piece more: the rank grows by the number of greater pieces
/// before it, weighted by the factorial of its position.
pub proof fn lemma_lehmer_push(x: Seq<u8>, p: u8)
    ensures
        lehmer(x.push(p)) == lehmer(x) + count(x, above(p)) * fact(x.len() as int),
        fact(x.len() as int + 1) == (x.len() + 1) * fact(x.len() as int),
        0 <= lehmer(x.push(p)) < fact(x.len() as int + 1),
        0 <= count(x, above(p)) <= x.len(),
{
    assert(x.push(p).drop_last() =~= x);
    lemma_lehmer_bound(x.push(p));
    lemma_count_bounds(x, above(p));
}

/// The rank of the arrangement of the pieces of a kind, the first of them
/// left out on demand.
pub fn rank_of(sq1: &Square1, kind: PieceKind, skip_first: bool) -> (rank: usize)
    requires
        count(sq1@, kind.holds()) <= 8,
    ensures
        rank == lehmer(ranked_pieces(sq1@, kind, skip_first)),
        rank < fact(ranked_pieces(sq1@, kind, skip_first).len() as int),
{
    let ghost s = sq1@;
    let mut rank: usize = 0;
    let mut factor: usize = 1;
    let mut seen: usize = 0;
    let mut list: Vec<u8> = Vec::new();
    let mut i: usize = 0;
    proof {
        assert(s.take(0).len() == 0);
        assert(fact(0) == 1 && fact(-1) == 1);
    }
    while i < 16
        invariant
            i <= 16,
            s == sq1@,
            count(s, kind.holds()) <= 8,
            seen == pick(s.take(i as int), kind.holds()).len(),
            seen <= 8,
            list@.len() <= seen,
            list@ == ranked_pieces(s.take(i as int), kind, skip_first),
            rank == lehmer(list@),
            rank < fact(list@.len() as int),
            factor == fact(list@.len() - 1),
        decreases 16 - i,
    {
        let piece: u8 = sq1.pieces[i];
        let ghost picked = pick(s.take(i as int), kind.holds());
        proof {
            lemma_pick_take(s, i as int, kind.holds());
            lemma_pick_len(s.take(i + 1), kind.holds());
            lemma_count_take_le(s, i + 1, kind.holds());
        }
        if kind.has(piece) {
            assert(pick(s.take(i + 1), kind.holds()) == picked.push(piece));
            assert(seen + 1 <= 8);
            let ghost before = list@;
            if !(skip_first && seen == 0) {
                let n: usize = list.len();
                proof {
                    lemma_lehmer_push(before, piece);
                    lemma_fact_monotone(n as int, 7);
                    lemma_fact_monotone(n as int + 1, 8);
                    lemma_fact_values();
                    assert(picked.push(piece).drop_first() =~= if picked.len() > 0 {
                        picked.drop_first().push(piece)
                    } else {
                        Seq::empty()
                    });
                }
                if n > 0 {
                    assert(factor * n == fact(n as int)) by (nonlinear_arith)
                        requires
                            factor == fact(n - 1),
                            fact(n as int) == n * fact(n - 1),
                    ;
                    factor = factor * n;
                    let higher: usize = count_higher(&list, piece);
                    assert(0 <= higher * factor <= 7 * 5040) by (nonlinear_arith)
                        requires
                            0 <= higher <= 7,
                            0 <= factor <= 5040,
                    ;
                    rank = rank + higher * factor;
                } else {
                    assert(count(before, above(piece)) == 0);
                }
                list.push(piece);
                assert(list@ == before.push(piece));
            } else {
                proof {
                    assert(picked.len() == 0);
                    assert(picked.push(piece).drop_first() =~= Seq::<u8>::empty());
                }
            }
            seen += 1;
        }
        i += 1;
    }
    assert(s.take(16) =~= s);
    rank
}

} // verus!
