//! The shape of a layer: how its corners and edges follow each other, and the
//! case numbers by which the indexers tell the shapes apart.
use vstd::prelude::*;
use crate::counting::{count, lemma_count_bounds, lemma_count_take};
use crate::square1::{
    angle_sum, divide, is_corner, is_edge, lemma_angle_sum_bounds, lemma_angle_sum_count,
    lemma_layers, lemma_mirrored_piece, lemma_reverse_well_formed, mirrored_at, pieces_in_range,
    well_formed, Square1,
};

verus! {

/// The numbers of a list as mathematical integers.
pub open spec fn ints(v: Seq<usize>) -> Seq<int> {
    v.map_values(|x: usize| x as int)
}

/// The sum of the numbers of a list.
pub open spec fn total(g: Seq<int>) -> int
    decreases g.len(),
{
    if g.len() == 0 {
        0
    } else {
        total(g.drop_last()) + g.last()
    }
}

/// The greatest number of a list, or zero for the empty list.
pub open spec fn highest(g: Seq<int>) -> int
    decreases g.len(),
{
    if g.len() == 0 {
        0
    } else if g.len() == 1 {
        g.last()
    } else if g.last() >= highest(g.drop_last()) {
        g.last()
    } else {
        highest(g.drop_last())
    }
}

/// The least number of a list, or zero for the empty list.
pub open spec fn lowest(g: Seq<int>) -> int
    decreases g.len(),
{
    if g.len() == 0 {
        0
    } else if g.len() == 1 {
        g.last()
    } else if g.last() < lowest(g.drop_last()) {
        g.last()
    } else {
        lowest(g.drop_last())
    }
}

/// How often `v` occurs in a list.
pub open spec fn occurrences(g: Seq<int>, v: int) -> int
    decreases g.len(),
{
    if g.len() == 0 {
        0
    } else {
        occurrences(g.drop_last(), v) + if g.last() == v {
            1int
        } else {
            0int
        }
    }
}

/// The first position of `v` in a list from `k` on, or the length of the
/// list if there is none.
pub open spec fn first_position(g: Seq<int>, v: int, k: int) -> int
    decreases g.len() - k,
{
    if k >= g.len() || (k >= 0 && g[k] == v) {
        k
    } else {
        first_position(g, v, k + 1)
    }
}

/// The configuration as a layer is read: the upper layer forwards from the
/// first piece, the lower layer backwards from the last.
pub open spec fn oriented(s: Seq<u8>, for_up: bool) -> Seq<u8> {
    if for_up {
        s
    } else {
        s.reverse()
    }
}

/// The runs of edges among the first `n` pieces of `r`: the edges before the
/// first corner, then those behind each corner.
pub open spec fn raw_gaps(r: Seq<u8>, n: int) -> Seq<int>
    decreases n,
{
    if n <= 0 {
        seq![0int]
    } else {
        let g = raw_gaps(r, n - 1);
        if r[n - 1] % 2 == 0 {
            g.push(0)
        } else {
            g.update(g.len() - 1, g.last() + 1)
        }
    }
}

/// The shape of the first layer of `r`: the number of edges between each two
/// corners that follow each other around the layer.
pub open spec fn shape_of(r: Seq<u8>) -> Seq<int> {
    let g = raw_gaps(r, divide(r));
    if g[0] == 0 {
        g.drop_first()
    } else {
        g.drop_last().update(0, g[0] + g.last())
    }
}

/// The sum of the first whole numbers up to `val`.
pub open spec fn sum_to(val: int) -> int {
    (val * (val + 1)) / 2
}

/// The sum of the squares of every second whole number from `val` down.
pub open spec fn sum_sum_to(val: int) -> int
    decreases val,
{
    if val < 1 {
        0
    } else if val < 3 {
        val * val
    } else {
        val * val + sum_sum_to(val - 2)
    }
}

/// How far behind position `i` of a shape of four the next run of two edges
/// or more lies.
pub open spec fn back_dist(shape: Seq<int>, i: int, dist: int) -> int
    decreases 3 - dist,
{
    if dist >= 3 || shape[(4 + i - 1 - dist) % 4] >= 2 {
        dist
    } else {
        back_dist(shape, i, dist + 1)
    }
}

/// The case number of a shape of four corners and its gap count after the
/// first `n` positions.
pub open spec fn case_4e_upto(shape: Seq<int>, n: int) -> (int, int)
    decreases n,
{
    if n <= 0 {
        (
            if highest(shape) >= 2 {
                highest(shape) - 2
            } else {
                0
            },
            1,
        )
    } else {
        let before = case_4e_upto(shape, n - 1);
        if shape[n - 1] == 0 {
            (
                before.0 + before.1 + back_dist(shape, n - 1, 0),
                if before.1 == 1 {
                    3
                } else {
                    0
                },
            )
        } else {
            before
        }
    }
}

/// The case of a layer of four corners and four edges.
pub open spec fn case_4e(shape: Seq<int>) -> int {
    let case = case_4e_upto(shape, 4).0;
    if case < 3 {
        case
    } else if case == 3 {
        8
    } else if case < 8 {
        case - 1
    } else if case == 8 {
        9
    } else {
        7
    }
}

/// The case of the mirror image of a layer of four corners and four edges.
pub open spec fn mirror_case_4e(case: int) -> int {
    if case == 1 {
        8
    } else if case == 5 {
        9
    } else if case == 8 {
        1
    } else if case == 9 {
        5
    } else {
        case
    }
}

/// The case of a layer of three corners and six edges.
pub open spec fn case_6e(shape: Seq<int>) -> int {
    let top = highest(shape);
    let index = first_position(shape, top, 0);
    let previous = if index < shape.len() {
        let prev = shape[(3 + index - 1) % 3];
        if prev == 0 && top == 3 {
            3
        } else {
            prev
        }
    } else {
        0
    };
    let key = top - previous + if top - 2 < 3 {
        top - 2
    } else {
        3
    };
    if key == 0 {
        3
    } else if key == 1 {
        4
    } else if key == 2 {
        0
    } else if key == 3 {
        7
    } else if key == 4 {
        1
    } else if key == 5 {
        5
    } else if key == 6 {
        8
    } else if key == 7 {
        2
    } else if key == 8 {
        9
    } else if key == 9 {
        6
    } else {
        3
    }
}

/// The case of a layer of five corners and two edges.
pub open spec fn case_2e(shape: Seq<int>) -> int {
    let index = first_position(shape, 1, 0);
    if index < shape.len() {
        if shape[(5 + index - 1) % 5] == 1 || shape[(index + 1) % 5] == 1 {
            1
        } else {
            2
        }
    } else {
        0
    }
}

/// The place that is reached after `steps` steps around a layer of `pieces`
/// pieces, within two rounds from its first place.
pub open spec fn place_after(steps: int, pieces: int) -> int {
    if steps < pieces {
        steps
    } else {
        steps - pieces
    }
}

/// The last `top` of `n` steps around the layer passed an edge each.
pub open spec fn run_passed(r: Seq<u8>, pieces: int, top: int, n: int) -> bool {
    &&& top <= n
    &&& forall|j: int| n - top <= j < n ==> r[#[trigger] place_after(j, pieces)] % 2 == 1
}

/// The number of steps around the layer, from its first place, after which
/// `top` edges in a row were passed for the first time.
pub open spec fn first_run_passed(r: Seq<u8>, pieces: int, top: int) -> int {
    choose|n: int|
        run_passed(r, pieces, top, n) && forall|m: int|
            m < n ==> !#[trigger] run_passed(r, pieces, top, m)
}

/// The turn that brings a layer of the given shape into the position in
/// which it is indexed: to the place behind the first run of as many edges
/// as the longest run of the shape holds, or, where the shape holds two such
/// runs and the second follows the first closely, behind the second.
pub open spec fn shape_turn(r: Seq<u8>, shape: Seq<int>, for_up: bool) -> int {
    let top = highest(shape);
    let pieces = 12 - shape.len();
    if top == 0 {
        0
    } else {
        let found = place_after(first_run_passed(r, pieces, top), pieces);
        let turn = if occurrences(shape, top) == 2 {
            if r[found + 1] % 2 != 0 {
                (found + 1 + top) % pieces
            } else if top == 1 && r[found + 2] % 2 != 0 {
                (found + 3) % pieces
            } else {
                found
            }
        } else {
            found
        };
        if for_up {
            turn
        } else {
            (pieces - turn) % pieces
        }
    }
}

pub proof fn lemma_total_bounds(g: Seq<int>)
    requires
        forall|i: int| 0 <= i < g.len() ==> #[trigger] g[i] >= 0,
    ensures
        total(g) >= 0,
        forall|i: int| 0 <= i < g.len() ==> #[trigger] g[i] <= total(g),
    decreases g.len(),
{
    if g.len() > 0 {
        lemma_total_bounds(g.drop_last());
        assert forall|i: int| 0 <= i < g.len() implies #[trigger] g[i] <= total(g) by {
            if i < g.len() - 1 {
                assert(g.drop_last()[i] == g[i]);
            }
        }
    }
}

pub proof fn lemma_highest(g: Seq<int>)
    ensures
        forall|i: int| 0 <= i < g.len() ==> #[trigger] g[i] <= highest(g),
        g.len() > 0 ==> exists|i: int| 0 <= i < g.len() && g[i] == highest(g),
        g.len() > 0 ==> first_position(g, highest(g), 0) < g.len(),
    decreases g.len(),
{
    if g.len() > 1 {
        lemma_highest(g.drop_last());
        let k = choose|i: int| 0 <= i < g.len() - 1 && g.drop_last()[i] == highest(g.drop_last());
        assert(g[k] == g.drop_last()[k]);
        assert forall|i: int| 0 <= i < g.len() implies #[trigger] g[i] <= highest(g) by {
            if i < g.len() - 1 {
                assert(g.drop_last()[i] == g[i]);
            }
        }
        if g.last() >= highest(g.drop_last()) {
            assert(g[g.len() - 1] == highest(g));
        } else {
            assert(g[k] == highest(g));
        }
    } else if g.len() == 1 {
        assert(g[0] == highest(g));
    }
    if g.len() > 0 {
        let k = choose|i: int| 0 <= i < g.len() && g[i] == highest(g);
        lemma_first_position(g, highest(g), 0, k);
    }
}

pub proof fn lemma_lowest(g: Seq<int>)
    ensures
        forall|i: int| 0 <= i < g.len() ==> lowest(g) <= #[trigger] g[i],
        g.len() > 0 ==> exists|i: int| 0 <= i < g.len() && g[i] == lowest(g),
    decreases g.len(),
{
    if g.len() > 1 {
        lemma_lowest(g.drop_last());
        let k = choose|i: int| 0 <= i < g.len() - 1 && g.drop_last()[i] == lowest(g.drop_last());
        assert(g[k] == g.drop_last()[k]);
        assert forall|i: int| 0 <= i < g.len() implies lowest(g) <= #[trigger] g[i] by {
            if i < g.len() - 1 {
                assert(g.drop_last()[i] == g[i]);
            }
        }
        if g.last() < lowest(g.drop_last()) {
            assert(g[g.len() - 1] == lowest(g));
        } else {
            assert(g[k] == lowest(g));
        }
    } else if g.len() == 1 {
        assert(g[0] == lowest(g));
    }
}

/// The first position of a number that occurs at `at` lies at or before it.
pub proof fn lemma_first_position(g: Seq<int>, v: int, k: int, at: int)
    requires
        0 <= k <= at < g.len(),
        g[at] == v,
    ensures
        k <= first_position(g, v, k) <= at,
        g[first_position(g, v, k)] == v,
        forall|j: int| k <= j < first_position(g, v, k) ==> g[j] != v,
    decreases at - k,
{
    if g[k] != v {
        lemma_first_position(g, v, k + 1, at);
    }
}

/// Where the first position of a number lies within the list, the number is
/// there.
pub proof fn lemma_first_position_found(g: Seq<int>, v: int, k: int)
    requires
        0 <= k,
        first_position(g, v, k) < g.len(),
    ensures
        g[first_position(g, v, k)] == v,
        k <= first_position(g, v, k),
    decreases g.len() - k,
{
    if !(k >= g.len() || g[k] == v) {
        lemma_first_position_found(g, v, k + 1);
    }
}

/// Where a number does not occur from `k` on, its first position is the
/// length of the list.
pub proof fn lemma_no_position(g: Seq<int>, v: int, k: int)
    requires
        0 <= k <= g.len(),
        forall|j: int| k <= j < g.len() ==> g[j] != v,
    ensures
        first_position(g, v, k) == g.len(),
    decreases g.len() - k,
{
    if k < g.len() {
        lemma_no_position(g, v, k + 1);
    }
}

/// The runs of edges among `n` pieces: one more than there are corners, and
/// together as long as there are edges.
pub proof fn lemma_raw_gaps(r: Seq<u8>, n: int)
    requires
        0 <= n <= r.len(),
    ensures
        raw_gaps(r, n).len() == 1 + count(r.take(n), is_corner()),
        total(raw_gaps(r, n)) == count(r.take(n), is_edge()),
        forall|i: int| 0 <= i < raw_gaps(r, n).len() ==> #[trigger] raw_gaps(r, n)[i] >= 0,
    decreases n,
{
    if n > 0 {
        lemma_raw_gaps(r, n - 1);
        lemma_count_take(r, n - 1, is_corner());
        lemma_count_take(r, n - 1, is_edge());
        lemma_count_bounds(r.take(n - 1), is_corner());
        let g = raw_gaps(r, n - 1);
        if r[n - 1] % 2 == 0 {
            assert(g.push(0).drop_last() =~= g);
        } else {
            let h = g.update(g.len() - 1, g.last() + 1);
            assert(h.drop_last() =~= g.drop_last());
        }
    } else {
        assert(r.take(0).len() == 0);
        assert(seq![0int].drop_last().len() == 0);
        assert(total(seq![0int].drop_last()) == 0);
    }
}

/// The sum of a list of four numbers.
pub proof fn lemma_total_four(g: Seq<int>)
    requires
        g.len() == 4,
    ensures
        total(g) == g[0] + g[1] + g[2] + g[3],
{
    let g3 = g.drop_last();
    let g2 = g3.drop_last();
    let g1 = g2.drop_last();
    assert(total(g1.drop_last()) == 0);
    assert(total(g1) == g[0]);
    assert(total(g2) == g[0] + g[1]);
    assert(total(g3) == g[0] + g[1] + g[2]);
}

/// The sum of a list without its first number.
pub proof fn lemma_total_drop_first(g: Seq<int>)
    requires
        g.len() > 0,
    ensures
        total(g) == g[0] + total(g.drop_first()),
    decreases g.len(),
{
    if g.len() == 1 {
        assert(g.drop_last().len() == 0);
        assert(g.drop_first().len() == 0);
        assert(total(g.drop_last()) == 0);
        assert(total(g.drop_first()) == 0);
        assert(g.last() == g[0]);
    } else {
        lemma_total_drop_first(g.drop_last());
        assert(g.drop_last().drop_first() =~= g.drop_first().drop_last());
        assert(g.drop_first().last() == g.last());
        assert(g.drop_last()[0] == g[0]);
    }
}

/// The sum of a list in which one number was replaced.
pub proof fn lemma_total_update(g: Seq<int>, i: int, v: int)
    requires
        0 <= i < g.len(),
    ensures
        total(g.update(i, v)) == total(g) - g[i] + v,
    decreases g.len(),
{
    if i == g.len() - 1 {
        assert(g.update(i, v).drop_last() =~= g.drop_last());
    } else {
        lemma_total_update(g.drop_last(), i, v);
        assert(g.update(i, v).drop_last() =~= g.drop_last().update(i, v));
    }
}

/// The shape of a layer of a well-formed configuration: one number for each
/// corner, which together count the edges.
pub proof fn lemma_shape_of(s: Seq<u8>, for_up: bool)
    requires
        well_formed(s),
    ensures
        well_formed(oriented(s, for_up)),
        divide(oriented(s, for_up)) == if for_up {
            divide(s)
        } else {
            16 - divide(s)
        },
        6 <= divide(s) <= 10,
        shape_of(oriented(s, for_up)).len() == 12 - divide(oriented(s, for_up)),
        raw_gaps(oriented(s, for_up), divide(oriented(s, for_up))).len() == 13 - divide(
            oriented(s, for_up),
        ),
        total(shape_of(oriented(s, for_up))) == 2 * divide(oriented(s, for_up)) - 12,
        forall|i: int|
            0 <= i < shape_of(oriented(s, for_up)).len() ==> #[trigger] shape_of(
                oriented(s, for_up),
            )[i] >= 0,
{
    let r = oriented(s, for_up);
    lemma_layers(s);
    lemma_angle_sum_bounds(s, 0, divide(s));
    lemma_angle_sum_bounds(s, divide(s), 16);
    if !for_up {
        lemma_reverse_well_formed(s);
    }
    let d = divide(r);
    lemma_layers(r);
    lemma_raw_gaps(r, d);
    lemma_angle_sum_count(r, d);
    lemma_count_bounds(r.take(d), is_corner());
    let g = raw_gaps(r, d);
    if g[0] == 0 {
        lemma_total_drop_first(g);
    } else {
        let h = g.drop_last();
        lemma_total_update(h, 0, g[0] + g.last());
    }
}

/// The position of the `j`-th corner among the pieces that the runs `g`
/// count: behind the first run and, for each corner before it, the corner
/// and the run behind it. With one more than there are corners, the number
/// of the pieces.
pub open spec fn corner_place(g: Seq<int>, j: int) -> int
    decreases j,
{
    if j <= 1 {
        g[0]
    } else {
        corner_place(g, j - 1) + 1 + g[j - 1]
    }
}

/// The position of a corner depends on the runs before it only.
pub proof fn lemma_corner_place_same(g: Seq<int>, h: Seq<int>, j: int)
    requires
        1 <= j <= g.len(),
        j <= h.len(),
        forall|k: int| 0 <= k < j ==> g[k] == h[k],
    ensures
        corner_place(g, j) == corner_place(h, j),
    decreases j,
{
    if j > 1 {
        lemma_corner_place_same(g, h, j - 1);
    }
}

/// Where the corners and the runs of edges lie among the first `n` pieces:
/// each run behind its corner, the first run in front.
pub open spec fn gaps_placed(r: Seq<u8>, g: Seq<int>, n: int) -> bool {
    &&& g.len() >= 1
    &&& corner_place(g, g.len() as int) == n
    &&& forall|j: int| 0 <= j < g.len() ==> #[trigger] g[j] >= 0
    &&& forall|j: int|
        1 <= j < g.len() ==> 0 <= #[trigger] corner_place(g, j) < n && r[corner_place(g, j)] % 2
            == 0 && corner_place(g, j) + g[j] < n
    &&& forall|j: int, x: int|
        1 <= j < g.len() && #[trigger] corner_place(g, j) < x <= corner_place(g, j) + g[j] ==> (
        #[trigger] r[x]) % 2 == 1
    &&& forall|x: int| 0 <= x < g[0] ==> (#[trigger] r[x]) % 2 == 1
}

/// The runs of edges among the first `n` pieces lie each behind its corner.
pub proof fn lemma_gaps_placed(r: Seq<u8>, n: int)
    requires
        0 <= n <= r.len(),
    ensures
        gaps_placed(r, raw_gaps(r, n), n),
    decreases n,
{
    if n > 0 {
        lemma_gaps_placed(r, n - 1);
        let g = raw_gaps(r, n - 1);
        let h = raw_gaps(r, n);
        let len = g.len() as int;
        if r[n - 1] % 2 == 0 {
            assert(h == g.push(0));
            lemma_corner_place_same(h, g, len);
            assert forall|j: int| 1 <= j < h.len() implies 0 <= #[trigger] corner_place(h, j) < n
                && r[corner_place(h, j)] % 2 == 0 && corner_place(h, j) + h[j] < n by {
                if j < len {
                    lemma_corner_place_same(h, g, j);
                    assert(h[j] == g[j]);
                    assert(corner_place(g, j) + g[j] < n - 1);
                }
            }
            assert forall|j: int, x: int|
                1 <= j < h.len() && #[trigger] corner_place(h, j) < x <= corner_place(h, j)
                    + h[j] implies (#[trigger] r[x]) % 2 == 1 by {
                if j < len {
                    lemma_corner_place_same(h, g, j);
                    assert(h[j] == g[j]);
                    assert(corner_place(g, j) < x <= corner_place(g, j) + g[j]);
                }
            }
            assert(h[0] == g[0]);
        } else {
            assert(h == g.update(len - 1, g[len - 1] + 1));
            if len >= 2 {
                lemma_corner_place_same(h, g, len - 1);
            }
            assert forall|j: int| 1 <= j < h.len() implies 0 <= #[trigger] corner_place(h, j) < n
                && r[corner_place(h, j)] % 2 == 0 && corner_place(h, j) + h[j] < n by {
                lemma_corner_place_same(h, g, j);
                assert(corner_place(g, j) + g[j] < n - 1);
            }
            assert forall|j: int, x: int|
                1 <= j < h.len() && #[trigger] corner_place(h, j) < x <= corner_place(h, j)
                    + h[j] implies (#[trigger] r[x]) % 2 == 1 by {
                lemma_corner_place_same(h, g, j);
                if x != n - 1 {
                    assert(corner_place(g, j) < x <= corner_place(g, j) + g[j]);
                }
            }
        }
    }
}

/// The position `x` around a layer of `pc` pieces lies in the run of `len`
/// pieces that begins at `q`.
pub open spec fn in_run(x: int, q: int, len: int, pc: int) -> bool {
    (q <= x < q + len) || (0 <= x < q + len - pc)
}

/// A run of `len` edges around the first `pc` pieces of `r`, which begins at
/// `q` behind a corner and ends before a corner.
pub open spec fn run_between(r: Seq<u8>, pc: int, q: int, len: int) -> bool {
    &&& 0 <= q < pc
    &&& 1 <= len < pc
    &&& r[if q == 0 {
        pc - 1
    } else {
        q - 1
    }] % 2 == 0
    &&& r[if q + len < pc {
        q + len
    } else {
        q + len - pc
    }] % 2 == 0
    &&& forall|x: int| 0 <= x < pc && in_run(x, q, len, pc) ==> (#[trigger] r[x]) % 2 == 1
}

/// The first `pc` pieces of `r` hold a run of `len` edges between two
/// corners, or `len` is nought.
pub open spec fn has_run(r: Seq<u8>, pc: int, len: int) -> bool {
    len >= 1 ==> exists|q: int| run_between(r, pc, q, len)
}

/// Each number of the shape of a layer counts a run of edges between two
/// corners of the layer.
pub proof fn lemma_shape_run(r: Seq<u8>, k: int) -> (q: int)
    requires
        0 <= divide(r) <= r.len(),
        raw_gaps(r, divide(r)).len() >= 3,
        0 <= k < shape_of(r).len(),
        shape_of(r)[k] >= 1,
    ensures
        run_between(r, divide(r), q, shape_of(r)[k]),
{
    let pc = divide(r);
    let g = raw_gaps(r, pc);
    let last = g.len() - 1;
    lemma_gaps_placed(r, pc);
    assert(corner_place(g, last + 1) == corner_place(g, last) + 1 + g[last]);
    assert(corner_place(g, 1) == g[0]);
    assert(0 <= corner_place(g, 1) < pc && r[corner_place(g, 1)] % 2 == 0);
    assert(0 <= corner_place(g, last) < pc && r[corner_place(g, last)] % 2 == 0);
    if g[0] == 0 || k >= 1 {
        let j = if g[0] == 0 {
            k + 1
        } else {
            k
        };
        assert(shape_of(r)[k] == g[j]);
        let c = corner_place(g, j);
        assert(0 <= c < pc && r[c] % 2 == 0 && c + g[j] < pc);
        assert(corner_place(g, j + 1) == c + 1 + g[j]);
        if j < last {
            assert(0 <= corner_place(g, j + 1) < pc && r[corner_place(g, j + 1)] % 2 == 0);
        }
        let q = c + 1;
        assert forall|x: int| 0 <= x < pc && in_run(x, q, g[j], pc) implies (#[trigger] r[x]) % 2
            == 1 by {
            assert(corner_place(g, j) < x <= corner_place(g, j) + g[j]);
        }
        q
    } else {
        assert(shape_of(r)[0] == g[0] + g[last]);
        let c = corner_place(g, last);
        let q = if g[last] >= 1 {
            c + 1
        } else {
            0
        };
        let len = g[0] + g[last];
        assert forall|x: int| 0 <= x < pc && in_run(x, q, len, pc) implies (#[trigger] r[x]) % 2
            == 1 by {
            if x < g[0] {
            } else {
                assert(corner_place(g, last) < x <= corner_place(g, last) + g[last]);
            }
        }
        q
    }
}

/// A layer of a well-formed configuration holds a run of edges between two
/// corners that is as long as the greatest number of its shape.
pub proof fn lemma_longest_run(s: Seq<u8>, for_up: bool)
    requires
        well_formed(s),
    ensures
        has_run(
            oriented(s, for_up),
            divide(oriented(s, for_up)),
            highest(shape_of(oriented(s, for_up))),
        ),
{
    let r = oriented(s, for_up);
    let shape = shape_of(r);
    lemma_shape_of(s, for_up);
    lemma_highest(shape);
    if highest(shape) >= 1 {
        let k = choose|k: int| 0 <= k < shape.len() && shape[k] == highest(shape);
        let q = lemma_shape_run(r, k);
    }
}

/// A run of edges between two corners of a layer is one of the layer read
/// backwards.
pub proof fn lemma_run_reversed(r: Seq<u8>, t: Seq<u8>, pc: int, len: int)
    requires
        has_run(r, pc, len),
        forall|i: int| 0 <= i < pc ==> (#[trigger] t[i]) % 2 == r[pc - 1 - i] % 2,
    ensures
        has_run(t, pc, len),
{
    if len >= 1 {
        let q = choose|q: int| run_between(r, pc, q, len);
        let p = if q + len <= pc {
            pc - q - len
        } else {
            2 * pc - q - len
        };
        let before = if p == 0 {
            pc - 1
        } else {
            p - 1
        };
        let behind = if p + len < pc {
            p + len
        } else {
            p + len - pc
        };
        assert(t[before] % 2 == r[pc - 1 - before] % 2);
        assert(t[behind] % 2 == r[pc - 1 - behind] % 2);
        assert forall|x: int| 0 <= x < pc && in_run(x, p, len, pc) implies (#[trigger] t[x]) % 2
            == 1 by {
            assert(in_run(pc - 1 - x, q, len, pc));
            assert(r[pc - 1 - x] % 2 == 1);
        }
        assert(run_between(t, pc, p, len));
    }
}

/// The layer holds a run of edges between two corners that is as long as
/// the greatest number of the shape.
pub open spec fn layer_has_run(s: Seq<u8>, for_up: bool, shape: Seq<int>) -> bool {
    has_run(oriented(s, for_up), 12 - shape.len(), highest(shape))
}

/// A layer of a well-formed configuration holds the longest run of its
/// shape.
pub proof fn lemma_run_of_shape(s: Seq<u8>, for_up: bool)
    requires
        well_formed(s),
    ensures
        layer_has_run(s, for_up, shape_of(oriented(s, for_up))),
{
    lemma_shape_of(s, for_up);
    lemma_longest_run(s, for_up);
}

/// With the layers exchanged, each layer holds the runs of the other.
pub proof fn lemma_run_flipped(s: Seq<u8>, for_up: bool, shape: Seq<int>)
    ensures
        layer_has_run(s.reverse(), for_up, shape) == layer_has_run(s, !for_up, shape),
{
    assert(s.reverse().reverse() =~= s);
}

/// The mirror image of a layer holds the runs of the layer.
pub proof fn lemma_run_mirrored(s: Seq<u8>, d: int, for_up: bool, shape: Seq<int>)
    requires
        s.len() == 16,
        pieces_in_range(s),
        0 <= d <= 16,
        12 - shape.len() == if for_up {
            d
        } else {
            16 - d
        },
        layer_has_run(s, for_up, shape),
    ensures
        layer_has_run(mirrored_at(s, d), for_up, shape),
{
    let pc = 12 - shape.len();
    let t = mirrored_at(s, d);
    let r = oriented(s, for_up);
    let rt = oriented(t, for_up);
    assert forall|i: int| 0 <= i < pc implies (#[trigger] rt[i]) % 2 == r[pc - 1 - i] % 2 by {
        if for_up {
            assert(s[d - 1 - i] < 16);
            lemma_mirrored_piece(s[d - 1 - i]);
        } else {
            assert(s[d + i] < 16);
            lemma_mirrored_piece(s[d + i]);
            assert(rt[i] == t[15 - i]);
        }
    }
    lemma_run_reversed(r, rt, pc, highest(shape));
}

/// The greatest number of a list, or zero for the empty list.
pub fn max(list: &Vec<usize>) -> (m: usize)
    ensures
        m == highest(ints(list@)),
{
    let mut m: usize = 0;
    let mut i: usize = 0;
    let ghost g = ints(list@);
    while i < list.len()
        invariant
            i <= list@.len(),
            g == ints(list@),
            m == highest(g.take(i as int)),
        decreases list@.len() - i,
    {
        proof {
            assert(g.take(i + 1).drop_last() =~= g.take(i as int));
            assert(g.take(i + 1).last() == list@[i as int]);
        }
        if i == 0 || list[i] >= m {
            m = list[i];
        }
        i += 1;
    }
    assert(g.take(list@.len() as int) =~= g);
    m
}

/// The least number of a list, or zero for the empty list.
pub fn min(list: &Vec<usize>) -> (m: usize)
    ensures
        m == lowest(ints(list@)),
{
    let mut m: usize = 0;
    let mut i: usize = 0;
    let ghost g = ints(list@);
    while i < list.len()
        invariant
            i <= list@.len(),
            g == ints(list@),
            m == lowest(g.take(i as int)),
        decreases list@.len() - i,
    {
        proof {
            assert(g.take(i + 1).drop_last() =~= g.take(i as int));
            assert(g.take(i + 1).last() == list@[i as int]);
        }
        if i == 0 || list[i] < m {
            m = list[i];
        }
        i += 1;
    }
    assert(g.take(list@.len() as int) =~= g);
    m
}

/// How often `v` occurs in a list.
pub fn count_equal(list: &Vec<usize>, v: usize) -> (n: usize)
    ensures
        n == occurrences(ints(list@), v as int),
{
    let mut n: usize = 0;
    let mut i: usize = 0;
    let ghost g = ints(list@);
    while i < list.len()
        invariant
            i <= list@.len(),
            g == ints(list@),
            n == occurrences(g.take(i as int), v as int),
            n <= i,
        decreases list@.len() - i,
    {
        proof {
            assert(g.take(i + 1).drop_last() =~= g.take(i as int));
            assert(g.take(i + 1).last() == list@[i as int]);
        }
        if list[i] == v {
            n += 1;
        }
        i += 1;
    }
    assert(g.take(list@.len() as int) =~= g);
    n
}

/// The first position of `v` in a list, if it occurs.
pub fn position(list: &Vec<usize>, v: usize) -> (at: Option<usize>)
    ensures
        match at {
            Some(i) => i == first_position(ints(list@), v as int, 0) && i < list@.len(),
            None => first_position(ints(list@), v as int, 0) == list@.len(),
        },
{
    let mut i: usize = 0;
    let ghost g = ints(list@);
    while i < list.len()
        invariant
            i <= list@.len(),
            g == ints(list@),
            forall|j: int| 0 <= j < i ==> g[j] != v,
        decreases list@.len() - i,
    {
        if list[i] == v {
            proof {
                lemma_first_position(g, v as int, 0, i as int);
            }
            return Some(i);
        }
        i += 1;
    }
    proof {
        lemma_no_position(g, v as int, 0);
        if first_position(g, v as int, 0) < g.len() {
            lemma_first_position_found(g, v as int, 0);
        }
    }
    None
}

/// The shape of a layer: the number of edges between each two corners that
/// follow each other around it.
pub fn get_shape(sq1: &Square1, for_up: bool) -> (shape: Vec<usize>)
    requires
        well_formed(sq1@),
    ensures
        ints(shape@) == shape_of(oriented(sq1@, for_up)),
        shape@.len() == 12 - divide(oriented(sq1@, for_up)),
        2 <= shape@.len() <= 6,
        total(ints(shape@)) == 12 - 2 * shape@.len(),
        forall|i: int| 0 <= i < shape@.len() ==> #[trigger] shape@[i] <= 8,
        layer_has_run(sq1@, for_up, ints(shape@)),
{
    let ghost r = oriented(sq1@, for_up);
    let mut shape: Vec<usize> = Vec::new();
    shape.push(0);
    let mut angle: u8 = 0;
    let mut turn: usize = 0;
    assert(ints(shape@) =~= raw_gaps(r, 0));
    while angle < 12
        invariant
            r == oriented(sq1@, for_up),
            turn <= angle <= 13,
            angle == angle_sum(r, 0, turn as int),
            forall|j: int| 0 <= j < turn ==> angle_sum(r, 0, j) < 12,
            ints(shape@) == raw_gaps(r, turn as int),
            1 <= shape@.len() <= turn + 1,
            forall|i: int| 0 <= i < shape@.len() ==> #[trigger] shape@[i] <= turn,
        decreases 16 - turn,
    {
        let piece: u8 = sq1.pieces[if for_up {
            turn
        } else {
            15 - turn
        }];
        assert(piece == r[turn as int]);
        let ghost before = shape@;
        if piece % 2 == 0 {
            shape.push(0);
            angle += 2;
            assert(ints(shape@) =~= ints(before).push(0));
        } else {
            let last: usize = shape.len() - 1;
            let more: usize = shape[last] + 1;
            shape.set(last, more);
            angle += 1;
            assert(ints(shape@) =~= ints(before).update(last as int, ints(before)[last as int] + 1));
        }
        turn += 1;
    }
    proof {
        crate::square1::lemma_reach_is(r, 0, 0, 12, turn as int);
        lemma_shape_of(sq1@, for_up);
        let g = raw_gaps(r, turn as int);
        assert(ints(shape@).len() == shape@.len());
        assert(g[0] == shape@[0]);
        assert(shape@.len() >= 3);
    }
    let ghost gaps = shape@;
    if shape[0] == 0 {
        shape.remove(0);
        assert(ints(shape@) =~= ints(gaps).drop_first());
    } else {
        let elem: usize = shape.pop().unwrap();
        let first: usize = shape[0] + elem;
        shape.set(0, first);
        assert(ints(shape@) =~= ints(gaps).drop_last().update(0, ints(gaps)[0] + ints(gaps).last()));
    }
    proof {
        lemma_total_bounds(ints(shape@));
        assert forall|i: int| 0 <= i < shape@.len() implies #[trigger] shape@[i] <= 8 by {
            assert(ints(shape@)[i] <= total(ints(shape@)));
        }
        lemma_run_of_shape(sq1@, for_up);
    }
    shape
}

/// The case of a layer of four corners and four edges.
pub fn get_case_4e(shape: &Vec<usize>) -> (case: usize)
    requires
        shape@.len() == 4,
        total(ints(shape@)) == 4,
    ensures
        case == case_4e(ints(shape@)),
        case <= 9,
{
    let ghost g = ints(shape@);
    let top: usize = max(shape);
    proof {
        lemma_highest(g);
        lemma_total_four(g);
        let k = choose|i: int| 0 <= i < g.len() && g[i] == highest(g);
        assert(shape@[k] <= 4);
    }
    let mut case: usize = if top >= 2 {
        top - 2
    } else {
        0
    };
    let mut gap: usize = 1;
    let mut i: usize = 0;
    while i < 4
        invariant
            i <= 4,
            shape@.len() == 4,
            g == ints(shape@),
            g[0] + g[1] + g[2] + g[3] == 4,
            (case as int, gap as int) == case_4e_upto(g, i as int),
            case <= 6 + 6 * i,
            gap <= 3,
        decreases 4 - i,
    {
        if shape[i] == 0 {
            let mut dist: usize = 0;
            while shape[(4 + i - 1 - dist) % 4] < 2
                invariant
                    dist <= 2,
                    i < 4,
                    shape@.len() == 4,
                    g == ints(shape@),
                    g[0] + g[1] + g[2] + g[3] == 4,
                    g[i as int] == 0,
                    dist >= 1 ==> g[(4 + i - 1) % 4] < 2,
                    dist >= 2 ==> g[(4 + i - 2) % 4] < 2,
                    back_dist(g, i as int, 0) == back_dist(g, i as int, dist as int),
                decreases 3 - dist,
            {
                proof {
                    if dist == 2 {
                        // the three other runs are shorter than two: no four edges
                        assert(g[(4 + i - 3) % 4] < 2);
                        assert(false);
                    }
                }
                dist += 1;
            }
            case += gap + dist;
            if gap == 1 {
                gap = 3;
            } else {
                gap = 0;
            }
        }
        i += 1;
    }
    if case < 3 {
        case
    } else if case == 3 {
        8
    } else if 3 < case && case < 8 {
        case - 1
    } else if case == 8 {
        9
    } else {
        7
    }
}

/// The case of the mirror image of a layer of four corners and four edges.
pub fn mirror_case_4e_of(case: usize) -> (mirrored: usize)
    ensures
        mirrored == mirror_case_4e(case as int),
{
    if case == 1 {
        8
    } else if case == 5 {
        9
    } else if case == 8 {
        1
    } else if case == 9 {
        5
    } else {
        case
    }
}

/// The case of a layer of three corners and six edges.
pub fn get_case_6e(shape: &Vec<usize>) -> (case: usize)
    requires
        shape@.len() == 3,
        total(ints(shape@)) == 6,
    ensures
        case == case_6e(ints(shape@)),
        case <= 9,
{
    let ghost g = ints(shape@);
    let top: usize = max(shape);
    proof {
        lemma_highest(g);
        let g2 = g.drop_last();
        let g1 = g2.drop_last();
        let g0 = g1.drop_last();
        assert(total(g0) == 0);
        assert(total(g1) == g[0]);
        assert(total(g2) == g[0] + g[1]);
        assert(total(g) == g[0] + g[1] + g[2]);
        assert(g[0] <= top && g[1] <= top && g[2] <= top);
    }
    let previous: usize = match position(shape, top) {
        Some(index) => {
            let prev: usize = shape[(3 + index - 1) % 3];
            assert(prev <= top);
            if prev == 0 && top == 3 {
                3
            } else {
                prev
            }
        },
        None => 0,
    };
    let key: usize = top - previous + if top - 2 < 3 {
        top - 2
    } else {
        3
    };
    if key == 0 {
        3
    } else if key == 1 {
        4
    } else if key == 2 {
        0
    } else if key == 3 {
        7
    } else if key == 4 {
        1
    } else if key == 5 {
        5
    } else if key == 6 {
        8
    } else if key == 7 {
        2
    } else if key == 8 {
        9
    } else if key == 9 {
        6
    } else {
        3
    }
}

/// The case of a layer of five corners and two edges.
pub fn get_case_2e(shape: &Vec<usize>) -> (case: usize)
    requires
        shape@.len() == 5,
    ensures
        case == case_2e(ints(shape@)),
        case <= 2,
{
    match position(shape, 1) {
        Some(index) => {
            if shape[(5 + index - 1) % 5] == 1 || shape[(index + 1) % 5] == 1 {
                1
            } else {
                2
            }
        },
        None => 0,
    }
}

/// The turn that brings a layer of the given shape into the position in
/// which it is indexed.
pub fn get_shape_turn(sq1: &Square1, for_up: bool, shape: &Vec<usize>) -> (turn: usize)
    requires
        2 <= shape@.len() <= 6,
        forall|i: int| 0 <= i < shape@.len() ==> #[trigger] shape@[i] <= 8,
        layer_has_run(sq1@, for_up, ints(shape@)),
    ensures
        turn == shape_turn(oriented(sq1@, for_up), ints(shape@), for_up),
        turn < 12 - shape@.len(),
{
    let ghost r = oriented(sq1@, for_up);
    let ghost g = ints(shape@);
    let top: usize = max(shape);
    proof {
        lemma_highest(g);
        let k = choose|i: int| 0 <= i < g.len() && g[i] == highest(g);
        assert(shape@[k] <= 8);
    }
    if top == 0 {
        0
    } else {
        let piece_count: usize = 12 - shape.len();
        let mut edge_count: usize = 0;
        let mut turn: usize = 0;
        let ghost q = choose|q: int| run_between(r, piece_count as int, q, top as int);
        let ghost mut steps: int = 0;
        while edge_count < top
            invariant
                r == oriented(sq1@, for_up),
                6 <= piece_count <= 10,
                1 <= top,
                run_between(r, piece_count as int, q, top as int),
                0 <= steps <= q + top,
                turn == if steps < piece_count {
                    steps
                } else {
                    steps - piece_count
                },
                steps >= q ==> edge_count == steps - q,
                edge_count <= steps,
                edge_count <= top,
                forall|j: int|
                    steps - edge_count <= j < steps ==> r[#[trigger] place_after(
                        j,
                        piece_count as int,
                    )] % 2 == 1,
                steps > edge_count ==> r[place_after(steps - edge_count - 1, piece_count as int)]
                    % 2 == 0,
                forall|m: int|
                    m < steps ==> !#[trigger] run_passed(r, piece_count as int, top as int, m),
            decreases q + top - steps,
        {
            let piece: u8 = sq1.pieces[if for_up {
                turn
            } else {
                15 - turn
            }];
            proof {
                assert(piece == r[turn as int]);
                assert(turn == place_after(steps, piece_count as int));
                assert(steps < q + top);
                assert(turn + 1 <= piece_count);
                if steps >= q {
                    assert(in_run(turn as int, q, top as int, piece_count as int));
                }
                if steps >= top {
                    assert(steps - top <= steps - edge_count - 1 < steps);
                }
                assert(!run_passed(r, piece_count as int, top as int, steps));
            }
            if piece % 2 == 0 {
                edge_count = 0;
            } else {
                edge_count += 1;
            }
            assert((turn + 1) % (piece_count as int) == if turn + 1 == piece_count {
                0
            } else {
                turn + 1
            }) by {
                if turn + 1 == piece_count {
                    vstd::arithmetic::div_mod::lemma_mod_self_0(piece_count as int);
                } else {
                    vstd::arithmetic::div_mod::lemma_small_mod(
                        (turn + 1) as nat,
                        piece_count as nat,
                    );
                }
            }
            turn = (turn + 1) % piece_count;
            proof {
                steps = steps + 1;
            }
        }
        proof {
            let pc = piece_count as int;
            assert(run_passed(r, pc, top as int, steps));
            let first = first_run_passed(r, pc, top as int);
            assert(run_passed(r, pc, top as int, first) && forall|m: int|
                m < first ==> !#[trigger] run_passed(r, pc, top as int, m));
            assert(first == steps);
        }
        if count_equal(shape, top) == 2 {
            let next: u8 = sq1.pieces[if for_up {
                turn + 1
            } else {
                15 - (turn + 1)
            }];
            assert(next == r[turn + 1]);
            if next % 2 != 0 {
                turn = (turn + 1 + top) % piece_count;
            } else if top == 1 {
                let second: u8 = sq1.pieces[if for_up {
                    turn + 2
                } else {
                    15 - (turn + 2)
                }];
                assert(second == r[turn + 2]);
                if second % 2 != 0 {
                    turn = (turn + 3) % piece_count;
                }
            }
        }
        if for_up {
            turn
        } else {
            (piece_count - turn) % piece_count
        }
    }
}

/// The sum of the first whole numbers up to `val`.
pub fn sum_to_of(val: usize) -> (sum: usize)
    requires
        val * (val + 1) <= usize::MAX,
    ensures
        sum == sum_to(val as int),
{
    assert(val + 1 <= usize::MAX) by (nonlinear_arith)
        requires
            val * (val + 1) <= usize::MAX,
    ;
    (val * (val + 1)) / 2
}

/// The sum of the squares of every second whole number from `val` down is
/// no less than the square of `val`.
pub proof fn lemma_sum_sum_to_bounds(val: int)
    ensures
        sum_sum_to(val) >= 0,
        val >= 1 ==> sum_sum_to(val) >= val * val,
    decreases val,
{
    if val >= 3 {
        lemma_sum_sum_to_bounds(val - 2);
    }
    assert(val * val >= 0) by (nonlinear_arith);
}

/// The sum of the squares of every second whole number from `val` down.
pub fn sum_sum_to_of(val: usize) -> (sum: usize)
    requires
        sum_sum_to(val as int) <= usize::MAX,
    ensures
        sum == sum_sum_to(val as int),
    decreases val,
{
    proof {
        lemma_sum_sum_to_bounds(val as int);
        lemma_sum_sum_to_bounds(val - 2);
    }
    if val < 1 {
        0
    } else if val < 3 {
        val * val
    } else {
        val * val + sum_sum_to_of(val - 2)
    }
}

/// The first values of the sums of squares.
pub proof fn lemma_sum_sum_to_values()
    ensures
        sum_sum_to(0) == 0,
        sum_sum_to(1) == 1,
        sum_sum_to(2) == 4,
        sum_sum_to(3) == 10,
        sum_sum_to(4) == 20,
{
    reveal_with_fuel(sum_sum_to, 3);
}

} // verus!
