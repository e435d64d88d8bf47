//! The lists of layer turns hold every turn after which the slice move is
//! possible, and none twice.
use vstd::prelude::*;
use crate::square1::{
    all_turns, angle_sum, divide, layer_pairs, layer_size, layers_turned, lemma_angle_sum_bounds,
    lemma_angle_sum_reverse, lemma_angle_sum_shift, lemma_angle_sum_split, lemma_layers,
    lemma_layers_turned_pieces, lemma_opposite_pairs, lemma_reach, lemma_reach_exact,
    lemma_turn_well_formed, opposite_pairs, pair_turns, reach, slice_start, slice_turns,
    turn_allows_slice, turns_of, turns_with, unique_turns, well_formed,
};

verus! {

/// The angle at which a boundary lies grows with the number of pieces
/// before it.
pub proof fn lemma_angles_grow(s: Seq<u8>, from: int, i: int, j: int)
    requires
        0 <= i,
        0 <= j,
        angle_sum(s, from, from + i) < angle_sum(s, from, from + j),
    ensures
        i < j,
{
    if i >= j {
        lemma_angle_sum_split(s, from, from + j, from + i);
        lemma_angle_sum_bounds(s, from + j, from + i);
    }
}

/// A layer that shows a boundary at half its span after a turn by `k`
/// pieces has two opposite boundaries, one of them before `k` pieces.
pub proof fn lemma_opposite_boundary(
    s: Seq<u8>,
    t: Seq<u8>,
    from: int,
    n: int,
    k: int,
    y: int,
) -> (pair: (int, int))
    requires
        0 <= from,
        from + n <= s.len(),
        s.len() == t.len(),
        0 <= k < n,
        0 <= y <= n,
        angle_sum(s, from, from + n) == 12,
        angle_sum(t, from, from + y) == 6,
        forall|j: int| from <= j < from + n - k ==> #[trigger] t[j] == s[j + k],
        forall|j: int| from + n - k <= j < from + n ==> #[trigger] t[j] == s[j - (n - k)],
    ensures
        0 <= pair.0 < pair.1 < n,
        angle_sum(s, from, from + pair.1) == angle_sum(s, from, from + pair.0) + 6,
        k == pair.0 || k == pair.1,
{
    assert(angle_sum(s, from, from) == 0);
    assert(angle_sum(t, from, from) == 0);
    if y <= n - k {
        lemma_angle_sum_shift(t, s, from, from + y, k);
        lemma_angle_sum_split(s, from, from + k, from + k + y);
        if k + y < n {
            (k, k + y)
        } else {
            lemma_angles_grow(s, from, 0, k);
            (0, k)
        }
    } else {
        let f = y - (n - k);
        lemma_angle_sum_split(t, from, from + n - k, from + y);
        lemma_angle_sum_shift(t, s, from, from + n - k, k);
        lemma_angle_sum_shift(t, s, from + n - k, from + y, -(n - k));
        lemma_angle_sum_split(s, from, from + k, from + n);
        lemma_angles_grow(s, from, f, k);
        (f, k)
    }
}

/// Two opposite boundaries among the first `n` are listed among the pairs
/// of the first `n` boundaries.
pub proof fn lemma_pair_listed(s: Seq<u8>, from: int, n: int, first: int, second: int) -> (i:
    int)
    requires
        0 <= from,
        from + n <= s.len(),
        0 <= first < second < n,
        angle_sum(s, from, from + second) == angle_sum(s, from, from + first) + 6,
        angle_sum(s, from, from + second) < 12,
    ensures
        0 <= i < opposite_pairs(s, from, n).len(),
        opposite_pairs(s, from, n)[i] == (angle_sum(s, from, from + first), first, second),
    decreases n,
{
    let rest = opposite_pairs(s, from, n - 1);
    let a = angle_sum(s, from, from + second);
    if second == n - 1 {
        lemma_angle_sum_bounds(s, from, from + first);
        lemma_reach_exact(s, from, a - 6, from + first);
        assert(opposite_pairs(s, from, n) == rest.push((a - 6, first, second)));
        rest.len() as int
    } else {
        let i = lemma_pair_listed(s, from, n - 1, first, second);
        let x = angle_sum(s, from, from + n - 1);
        let f = reach(s, from, from, x - 6) - from;
        if 6 <= x < 12 && angle_sum(s, from, from + f) == x - 6 {
            assert(opposite_pairs(s, from, n) == rest.push((x - 6, f, n - 1)));
        } else {
            assert(opposite_pairs(s, from, n) == rest);
        }
        assert(opposite_pairs(s, from, n)[i] == rest[i]);
        i
    }
}

/// A turn to one boundary of a pair of the upper layer and one of a pair of
/// the lower layer: `(up, down)` itself, and the turn to the two other
/// boundaries, which differs from it by a half turn of the whole puzzle.
pub open spec fn turn_and_partner(
    up_pair: (int, int, int),
    down_pair: (int, int, int),
    up: int,
    down: int,
) -> ((int, int), (int, int)) {
    (
        (up, down),
        (
            if up == up_pair.1 {
                up_pair.2
            } else {
                up_pair.1
            },
            if down == down_pair.1 {
                down_pair.2
            } else {
                down_pair.1
            },
        ),
    )
}

/// A pair of boundaries of each layer gives each turn to one boundary of
/// each, or, where one of each two is kept, the turn or its partner.
pub proof fn lemma_pair_turns_listed(
    up_pair: (int, int, int),
    down_pair: (int, int, int),
    up: int,
    down: int,
    all: bool,
)
    requires
        up == up_pair.1 || up == up_pair.2,
        down == down_pair.1 || down == down_pair.2,
    ensures
        all ==> pair_turns(up_pair, down_pair, all).contains((up, down)),
        pair_turns(up_pair, down_pair, all).contains((up, down)) || pair_turns(
            up_pair,
            down_pair,
            all,
        ).contains(turn_and_partner(up_pair, down_pair, up, down).1),
{
    let list = pair_turns(up_pair, down_pair, all);
    let partner = turn_and_partner(up_pair, down_pair, up, down).1;
    if all {
        assert(list[0] == (up_pair.1, down_pair.1));
        assert(list[1] == (up_pair.2, down_pair.2));
        assert(list[2] == (up_pair.1, down_pair.2));
        assert(list[3] == (up_pair.2, down_pair.1));
    } else {
        assert(list[0] == (up_pair.1, down_pair.1) || list[0] == (up_pair.2, down_pair.2));
        assert(list[1] == (up_pair.1, down_pair.2) || list[1] == (up_pair.2, down_pair.1));
        if (up == up_pair.1) == (down == down_pair.1) {
            assert(list[0] == (up, down) || list[0] == partner);
        } else {
            assert(list[1] == (up, down) || list[1] == partner);
        }
    }
}

/// What is in one of two lists is in the lists joined.
pub proof fn lemma_joined_contains(a: Seq<(int, int)>, b: Seq<(int, int)>, e: (int, int))
    requires
        a.contains(e) || b.contains(e),
    ensures
        (a + b).contains(e),
{
    if a.contains(e) {
        let i = choose|i: int| 0 <= i < a.len() && a[i] == e;
        assert((a + b)[i] == e);
    } else {
        let i = choose|i: int| 0 <= i < b.len() && b[i] == e;
        assert((a + b)[a.len() + i] == e);
    }
}

/// The turns that the pairs of the upper layer give with one pair of the
/// lower layer hold what each pair gives.
pub proof fn lemma_turns_with_listed(
    ups: Seq<(int, int, int)>,
    down: (int, int, int),
    n: int,
    i: int,
    all: bool,
    e: (int, int),
)
    requires
        0 <= i < n <= ups.len(),
        pair_turns(ups[i], down, all).contains(e),
    ensures
        turns_with(ups, down, n, all).contains(e),
    decreases n,
{
    if i < n - 1 {
        lemma_turns_with_listed(ups, down, n - 1, i, all, e);
    }
    lemma_joined_contains(turns_with(ups, down, n - 1, all), pair_turns(ups[n - 1], down, all), e);
}

/// The turns that the pairs of both layers give hold what each two pairs
/// give.
pub proof fn lemma_turns_of_listed(
    ups: Seq<(int, int, int)>,
    downs: Seq<(int, int, int)>,
    m: int,
    i: int,
    j: int,
    all: bool,
    e: (int, int),
)
    requires
        0 <= i < ups.len(),
        0 <= j < m <= downs.len(),
        pair_turns(ups[i], downs[j], all).contains(e),
    ensures
        turns_of(ups, downs, m, all).contains(e),
    decreases m,
{
    if j < m - 1 {
        lemma_turns_of_listed(ups, downs, m - 1, i, j, all, e);
    } else {
        lemma_turns_with_listed(ups, downs[m - 1], ups.len() as int, i, all, e);
    }
    lemma_joined_contains(
        turns_of(ups, downs, m - 1, all),
        turns_with(ups, downs[m - 1], ups.len() as int, all),
        e,
    );
}

/// The pairs of opposite boundaries that a turn after which the slice move
/// is possible turns the layers to: their places in the lists of the pairs
/// of the two layers.
pub proof fn lemma_turn_pairs(s: Seq<u8>, up: int, down: int) -> (at: (int, int))
    requires
        well_formed(s),
        0 <= up < divide(s),
        0 <= down < 16 - divide(s),
        turn_allows_slice(s, up, down),
    ensures
        0 <= at.0 < layer_pairs(s, 0).len(),
        0 <= at.1 < layer_pairs(s, divide(s)).len(),
        up == layer_pairs(s, 0)[at.0].1 || up == layer_pairs(s, 0)[at.0].2,
        down == layer_pairs(s, divide(s))[at.1].1 || down == layer_pairs(s, divide(s))[at.1].2,
{
    let n = divide(s);
    let t = layers_turned(s, up, down);
    lemma_layers(s);
    lemma_turn_well_formed(s, up, down);
    lemma_layers(t);
    lemma_layers_turned_pieces(s, up, down);
    lemma_reach_exact(s, n, 12, 16);
    assert(layer_size(s, 0) == n);
    assert(layer_size(s, n) == 16 - n);
    // the upper layer
    let y = slice_start(t);
    lemma_reach(t, 0, 0, 6);
    lemma_angles_grow(t, 0, y, n);
    let top = lemma_opposite_boundary(s, t, 0, n, up, y);
    lemma_angle_sum_split(s, 0, top.1, n);
    lemma_angle_sum_bounds(s, top.1, n);
    let i = lemma_pair_listed(s, 0, n, top.0, top.1);
    // the lower layer
    let r = reach(t.reverse(), 0, 0, 6);
    lemma_reach(t.reverse(), 0, 0, 6);
    lemma_angle_sum_reverse(t, 0, r);
    if 16 - r < n {
        lemma_angle_sum_split(t, 16 - r, n, 16);
        lemma_angle_sum_bounds(t, 16 - r, n);
    }
    lemma_angle_sum_split(t, n, 16 - r, 16);
    let bottom = lemma_opposite_boundary(s, t, n, 16 - n, down, 16 - r - n);
    lemma_angle_sum_split(s, n, n + bottom.1, 16);
    lemma_angle_sum_bounds(s, n + bottom.1, 16);
    let j = lemma_pair_listed(s, n, 16 - n, bottom.0, bottom.1);
    (i, j)
}

/// The list of all turns holds every turn of less than a full circle after
/// which the slice move is possible.
pub proof fn lemma_all_turns_complete(s: Seq<u8>, up: int, down: int)
    requires
        well_formed(s),
        0 <= up < divide(s),
        0 <= down < 16 - divide(s),
        turn_allows_slice(s, up, down),
    ensures
        all_turns(s).contains((up, down)),
{
    let ups = layer_pairs(s, 0);
    let downs = layer_pairs(s, divide(s));
    let at = lemma_turn_pairs(s, up, down);
    lemma_pair_turns_listed(ups[at.0], downs[at.1], up, down, true);
    lemma_turns_of_listed(ups, downs, downs.len() as int, at.0, at.1, true, (up, down));
}

/// The list of the unique turns holds, of every turn of less than a full
/// circle after which the slice move is possible, the turn itself or its
/// partner: the turn that differs from it by a half turn of the whole
/// puzzle, after which the slice move is possible too.
pub proof fn lemma_unique_turns_complete(s: Seq<u8>, up: int, down: int) -> (partner: (int, int))
    requires
        well_formed(s),
        0 <= up < divide(s),
        0 <= down < 16 - divide(s),
        turn_allows_slice(s, up, down),
    ensures
        unique_turns(s).contains((up, down)) || unique_turns(s).contains(partner),
        angle_sum(s, 0, partner.0) == angle_sum(s, 0, up) + 6 || angle_sum(s, 0, partner.0)
            == angle_sum(s, 0, up) - 6,
        angle_sum(s, divide(s), divide(s) + partner.1) == angle_sum(
            s,
            divide(s),
            divide(s) + down,
        ) + 6 || angle_sum(s, divide(s), divide(s) + partner.1) == angle_sum(
            s,
            divide(s),
            divide(s) + down,
        ) - 6,
{
    let n = divide(s);
    let ups = layer_pairs(s, 0);
    let downs = layer_pairs(s, n);
    let at = lemma_turn_pairs(s, up, down);
    lemma_layers(s);
    lemma_reach_exact(s, n, 12, 16);
    lemma_opposite_pairs(s, 0, n);
    lemma_opposite_pairs(s, n, 16 - n);
    let partner = turn_and_partner(ups[at.0], downs[at.1], up, down).1;
    lemma_pair_turns_listed(ups[at.0], downs[at.1], up, down, false);
    if pair_turns(ups[at.0], downs[at.1], false).contains((up, down)) {
        lemma_turns_of_listed(ups, downs, downs.len() as int, at.0, at.1, false, (up, down));
    } else {
        lemma_turns_of_listed(ups, downs, downs.len() as int, at.0, at.1, false, partner);
    }
    partner
}

/// The boundaries of the pairs lie apart: no boundary belongs to two pairs,
/// and none is both the first and the second of a pair.
pub open spec fn apart(pairs: Seq<(int, int, int)>) -> bool {
    forall|i: int, j: int|
        0 <= i < pairs.len() && 0 <= j < pairs.len() ==> (#[trigger] pairs[i]).1 != (
        #[trigger] pairs[j]).2 && (i != j ==> pairs[i].1 != pairs[j].1 && pairs[i].2
            != pairs[j].2)
}

/// The boundaries of the pairs of opposite boundaries of a layer lie apart.
pub proof fn lemma_pairs_apart(s: Seq<u8>, from: int, n: int)
    requires
        0 <= from,
        0 <= n,
        from + n <= s.len(),
    ensures
        apart(opposite_pairs(s, from, n)),
    decreases n,
{
    let now = opposite_pairs(s, from, n);
    lemma_opposite_pairs(s, from, n);
    if n > 0 {
        let rest = opposite_pairs(s, from, n - 1);
        lemma_pairs_apart(s, from, n - 1);
        lemma_opposite_pairs(s, from, n - 1);
        assert forall|i: int, j: int| 0 <= i < now.len() && 0 <= j < now.len() implies (
        #[trigger] now[i]).1 != (#[trigger] now[j]).2 && (i != j ==> now[i].1 != now[j].1
            && now[i].2 != now[j].2) by {
            let p = now[i];
            let q = now[j];
            if i < rest.len() {
                assert(p == rest[i]);
            }
            if j < rest.len() {
                assert(q == rest[j]);
            }
            if i != j {
                assert(p.2 != q.2);
                if p.1 == q.1 {
                    if p.2 < q.2 {
                        lemma_angle_sum_split(s, from, from + p.2, from + q.2);
                        lemma_angle_sum_bounds(s, from + p.2, from + q.2);
                    } else {
                        lemma_angle_sum_split(s, from, from + q.2, from + p.2);
                        lemma_angle_sum_bounds(s, from + q.2, from + p.2);
                    }
                }
            }
        }
    }
}

/// The turns come from the first `n` pairs of the upper layer and one pair
/// of the lower layer.
pub open spec fn from_ups(e: (int, int), ups: Seq<(int, int, int)>, n: int, down: (int, int, int)) -> bool {
    (e.1 == down.1 || e.1 == down.2) && exists|i: int|
        0 <= i < n && (e.0 == (#[trigger] ups[i]).1 || e.0 == ups[i].2)
}

/// No turn stands twice among the turns that the pairs of the upper layer
/// give with one pair of the lower layer.
pub proof fn lemma_turns_with_distinct(
    ups: Seq<(int, int, int)>,
    down: (int, int, int),
    n: int,
    all: bool,
)
    requires
        0 <= n <= ups.len(),
        apart(ups),
        down.1 != down.2,
    ensures
        turns_with(ups, down, n, all).no_duplicates(),
        forall|x: int|
            0 <= x < turns_with(ups, down, n, all).len() ==> from_ups(
                #[trigger] turns_with(ups, down, n, all)[x],
                ups,
                n,
                down,
            ),
    decreases n,
{
    if n > 0 {
        lemma_turns_with_distinct(ups, down, n - 1, all);
        let rest = turns_with(ups, down, n - 1, all);
        let last = ups[n - 1];
        let more = pair_turns(last, down, all);
        let now = turns_with(ups, down, n, all);
        assert(last.1 != last.2);
        assert forall|x: int| 0 <= x < now.len() implies from_ups(#[trigger] now[x], ups, n, down) by {
            if x < rest.len() {
                assert(now[x] == rest[x]);
                assert(from_ups(rest[x], ups, n - 1, down));
                let i = choose|i: int|
                    0 <= i < n - 1 && (rest[x].0 == (#[trigger] ups[i]).1 || rest[x].0 == ups[i].2);
                assert(ups[i].1 == ups[i].1);
            } else {
                assert(now[x] == more[x - rest.len()]);
                assert(now[x].0 == ups[n - 1].1 || now[x].0 == ups[n - 1].2);
            }
        }
        assert forall|x: int, y: int| 0 <= x < now.len() && 0 <= y < now.len() && x != y implies now[x]
            != now[y] by {
            if x < rest.len() && y < rest.len() {
                assert(now[x] == rest[x] && now[y] == rest[y]);
            } else if x >= rest.len() && y >= rest.len() {
                assert(now[x] == more[x - rest.len()] && now[y] == more[y - rest.len()]);
            } else {
                let old_one = if x < rest.len() {
                    x
                } else {
                    y
                };
                let new_one = if x < rest.len() {
                    y
                } else {
                    x
                };
                assert(now[old_one] == rest[old_one]);
                assert(now[new_one] == more[new_one - rest.len()]);
                assert(from_ups(rest[old_one], ups, n - 1, down));
                let i = choose|i: int|
                    0 <= i < n - 1 && (rest[old_one].0 == (#[trigger] ups[i]).1 || rest[old_one].0
                        == ups[i].2);
                assert(ups[i].1 != ups[n - 1].2 && ups[n - 1].1 != ups[i].2);
                assert(ups[i].1 != ups[n - 1].1 && ups[i].2 != ups[n - 1].2);
            }
        }
    }
}

/// The turns come from the first `m` pairs of the lower layer.
pub open spec fn from_downs(e: (int, int), downs: Seq<(int, int, int)>, m: int) -> bool {
    exists|j: int| 0 <= j < m && (e.1 == (#[trigger] downs[j]).1 || e.1 == downs[j].2)
}

/// No turn stands twice among the turns that the pairs of the two layers
/// give.
pub proof fn lemma_turns_of_distinct(
    ups: Seq<(int, int, int)>,
    downs: Seq<(int, int, int)>,
    m: int,
    all: bool,
)
    requires
        0 <= m <= downs.len(),
        apart(ups),
        apart(downs),
    ensures
        turns_of(ups, downs, m, all).no_duplicates(),
        forall|x: int|
            0 <= x < turns_of(ups, downs, m, all).len() ==> from_downs(
                #[trigger] turns_of(ups, downs, m, all)[x],
                downs,
                m,
            ),
    decreases m,
{
    if m > 0 {
        lemma_turns_of_distinct(ups, downs, m - 1, all);
        let last = downs[m - 1];
        assert(last.1 != last.2);
        lemma_turns_with_distinct(ups, last, ups.len() as int, all);
        let rest = turns_of(ups, downs, m - 1, all);
        let more = turns_with(ups, last, ups.len() as int, all);
        let now = turns_of(ups, downs, m, all);
        assert forall|x: int| 0 <= x < now.len() implies from_downs(#[trigger] now[x], downs, m) by {
            if x < rest.len() {
                assert(now[x] == rest[x]);
                assert(from_downs(rest[x], downs, m - 1));
                let j = choose|j: int|
                    0 <= j < m - 1 && (rest[x].1 == (#[trigger] downs[j]).1 || rest[x].1
                        == downs[j].2);
                assert(downs[j].1 == downs[j].1);
            } else {
                assert(now[x] == more[x - rest.len()]);
                assert(from_ups(more[x - rest.len()], ups, ups.len() as int, last));
                assert(now[x].1 == downs[m - 1].1 || now[x].1 == downs[m - 1].2);
            }
        }
        assert forall|x: int, y: int| 0 <= x < now.len() && 0 <= y < now.len() && x != y implies now[x]
            != now[y] by {
            if x < rest.len() && y < rest.len() {
                assert(now[x] == rest[x] && now[y] == rest[y]);
            } else if x >= rest.len() && y >= rest.len() {
                assert(now[x] == more[x - rest.len()] && now[y] == more[y - rest.len()]);
            } else {
                let old_one = if x < rest.len() {
                    x
                } else {
                    y
                };
                let new_one = if x < rest.len() {
                    y
                } else {
                    x
                };
                assert(now[old_one] == rest[old_one]);
                assert(now[new_one] == more[new_one - rest.len()]);
                assert(from_downs(rest[old_one], downs, m - 1));
                assert(from_ups(more[new_one - rest.len()], ups, ups.len() as int, last));
                let j = choose|j: int|
                    0 <= j < m - 1 && (rest[old_one].1 == (#[trigger] downs[j]).1 || rest[old_one].1
                        == downs[j].2);
                assert(downs[j].1 != downs[m - 1].2 && downs[m - 1].1 != downs[j].2);
                assert(downs[j].1 != downs[m - 1].1 && downs[j].2 != downs[m - 1].2);
            }
        }
    }
}

/// No turn stands twice in the list of all turns after which the slice move
/// is possible, and none in the list of the unique turns.
pub proof fn lemma_turns_distinct(s: Seq<u8>, all: bool)
    requires
        well_formed(s),
    ensures
        slice_turns(s, all).no_duplicates(),
{
    let n = divide(s);
    lemma_layers(s);
    lemma_reach_exact(s, n, 12, 16);
    lemma_pairs_apart(s, 0, n);
    lemma_pairs_apart(s, n, 16 - n);
    let ups = layer_pairs(s, 0);
    let downs = layer_pairs(s, n);
    lemma_turns_of_distinct(ups, downs, downs.len() as int, all);
}

} // verus!
