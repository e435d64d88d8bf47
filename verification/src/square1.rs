//! A Square-1 configuration and the moves and symmetry transforms on it.
//!
//! A configuration lists the sixteen pieces in order: first the upper layer,
//! then the lower one. An even piece is a corner and spans two angular units,
//! an odd piece is an edge and spans one; a layer spans twelve.
use vstd::prelude::*;
use crate::counting::{
    count, count_below, distinct_below, lemma_count_permutation, lemma_count_take,
};

verus! {

/// The angular width of a piece: two units for a corner, one for an edge.
pub open spec fn angle(p: u8) -> int {
    2 - (p % 2) as int
}

/// The angular width of the pieces of `s` at the positions `from..to`.
pub open spec fn angle_sum(s: Seq<u8>, from: int, to: int) -> int
    decreases to - from,
{
    if to <= from {
        0
    } else {
        angle_sum(s, from, to - 1) + angle(s[to - 1])
    }
}

/// The first position at or after `k` at which the pieces from `from` on
/// span at least `target` units, or the length of `s` if there is none.
pub open spec fn reach(s: Seq<u8>, from: int, k: int, target: int) -> int
    decreases s.len() - k,
{
    if k >= s.len() || angle_sum(s, from, k) >= target {
        k
    } else {
        reach(s, from, k + 1, target)
    }
}

/// The number of pieces in the upper layer.
pub open spec fn divide(s: Seq<u8>) -> int {
    reach(s, 0, 0, 12)
}

/// The solved configuration: piece `i` at position `i`.
pub open spec fn solved_pieces() -> Seq<u8> {
    Seq::new(16, |i: int| i as u8)
}

/// All sixteen pieces are present, each once.
pub open spec fn is_permutation(s: Seq<u8>) -> bool {
    &&& s.len() == 16
    &&& forall|i: int| 0 <= i < 16 ==> #[trigger] s[i] < 16
    &&& forall|i: int, j: int| 0 <= i < j < 16 ==> s[i] != s[j]
}

/// The pieces form two layers of twelve units each.
pub open spec fn well_formed(s: Seq<u8>) -> bool {
    &&& is_permutation(s)
    &&& angle_sum(s, 0, divide(s)) == 12
}

/// The number of pieces before the slice line in the upper layer.
pub open spec fn slice_start(s: Seq<u8>) -> int {
    reach(s, 0, 0, 6)
}

/// The position just behind the last piece that the slice turns over.
pub open spec fn slice_end(s: Seq<u8>) -> int {
    s.len() - reach(s.reverse(), 0, 0, 6)
}

/// Both layers have a piece boundary on the slice line.
pub open spec fn sliceable(s: Seq<u8>) -> bool {
    &&& angle_sum(s, 0, slice_start(s)) == 6
    &&& angle_sum(s.reverse(), 0, reach(s.reverse(), 0, 0, 6)) == 6
}

/// `s` with the positions `from..to` in reverse order.
pub open spec fn reverse_range(s: Seq<u8>, from: int, to: int) -> Seq<u8> {
    s.subrange(0, from) + s.subrange(from, to).reverse() + s.subrange(to, s.len() as int)
}

/// `s` rotated to the left by `k` positions.
pub open spec fn rotate_left(s: Seq<u8>, k: int) -> Seq<u8> {
    s.subrange(k, s.len() as int) + s.subrange(0, k)
}

/// The configuration after the slice move.
pub open spec fn slice_turned(s: Seq<u8>) -> Seq<u8> {
    reverse_range(s, slice_start(s), slice_end(s))
}

/// The configuration after the upper layer is rotated left by `up` pieces and
/// the lower one by `down` pieces.
pub open spec fn layers_turned(s: Seq<u8>, up: int, down: int) -> Seq<u8> {
    let d = divide(s);
    rotate_left(s.subrange(0, d), up) + rotate_left(s.subrange(d, s.len() as int), down)
}

/// The piece that takes the place of `p` when the colours of the black pieces
/// are cycled by `up` corners and those of the white pieces by `down`.
pub open spec fn cycled_piece(p: u8, up: int, down: int) -> u8 {
    if p < 8 {
        ((8 + p - up * 2) % 8) as u8
    } else {
        ((p - down * 2) % 8 + 8) as u8
    }
}

/// The configuration after the colours are cycled; nothing changes where both
/// amounts are zero.
pub open spec fn colours_cycled(s: Seq<u8>, up: int, down: int) -> Seq<u8> {
    if up == 0 && down == 0 {
        s
    } else {
        s.map_values(|p: u8| cycled_piece(p, up, down))
    }
}

/// The piece that takes the place of `p` when black and white are exchanged.
pub open spec fn colour_flipped_piece(p: u8) -> u8 {
    if p == 15 {
        7
    } else if p == 7 {
        15
    } else {
        (14 - p) as u8
    }
}

/// The configuration after black and white are exchanged.
pub open spec fn colours_flipped(s: Seq<u8>) -> Seq<u8> {
    s.map_values(|p: u8| colour_flipped_piece(p))
}

/// The piece that takes the place of `p` in the mirror image.
pub open spec fn mirrored_piece(p: u8) -> u8 {
    if p < 8 {
        ((p + 4) % 8 + 8) as u8
    } else {
        ((p + 4) % 8) as u8
    }
}

/// The mirror image of `s` with the layer boundary behind `d` pieces.
pub open spec fn mirrored_at(s: Seq<u8>, d: int) -> Seq<u8> {
    (s.subrange(0, d).reverse() + s.subrange(d, s.len() as int).reverse()).map_values(
        |p: u8| mirrored_piece(p),
    )
}

/// Every piece is one of the sixteen.
pub open spec fn pieces_in_range(s: Seq<u8>) -> bool {
    forall|i: int| 0 <= i < s.len() ==> #[trigger] s[i] < 16
}

/// A configuration that the solver accepts: well formed, with both layers
/// on the slice line.
pub open spec fn valid(s: Seq<u8>) -> bool {
    well_formed(s) && sliceable(s)
}

/// The number that holds the pieces of `s` as hexadecimal digits, first piece
/// first.
pub open spec fn packed(s: Seq<u8>) -> nat
    decreases s.len(),
{
    if s.len() == 0 {
        0
    } else {
        packed(s.drop_last()) * 16 + s.last() as nat
    }
}

/// The last `len` hexadecimal digits of `n`, most significant first.
pub open spec fn unpacked(n: nat, len: nat) -> Seq<u8>
    decreases len,
{
    if len == 0 {
        Seq::empty()
    } else {
        unpacked(n / 16, (len - 1) as nat).push((n % 16) as u8)
    }
}

pub open spec fn pow16(n: nat) -> nat
    decreases n,
{
    if n == 0 {
        1
    } else {
        16 * pow16((n - 1) as nat)
    }
}

pub proof fn lemma_pow16_monotone(a: nat, b: nat)
    requires
        a <= b,
    ensures
        pow16(a) <= pow16(b),
        pow16(a) >= 1,
    decreases b,
{
    if a < b {
        lemma_pow16_monotone(a, (b - 1) as nat);
    } else if a > 0 {
        lemma_pow16_monotone((a - 1) as nat, (a - 1) as nat);
    }
}

pub proof fn lemma_pow16_16()
    ensures
        pow16(16) == 0x1_0000_0000_0000_0000,
{
    reveal_with_fuel(pow16, 17);
}

/// A number packed from digits below sixteen has as many digits.
pub proof fn lemma_packed_bound(s: Seq<u8>)
    requires
        forall|i: int| 0 <= i < s.len() ==> #[trigger] s[i] < 16,
    ensures
        packed(s) < pow16(s.len()),
    decreases s.len(),
{
    if s.len() > 0 {
        lemma_packed_bound(s.drop_last());
    }
}

/// Unpacking a packed configuration gives the configuration back.
pub proof fn lemma_unpack_packed(s: Seq<u8>)
    requires
        forall|i: int| 0 <= i < s.len() ==> #[trigger] s[i] < 16,
    ensures
        unpacked(packed(s), s.len()) == s,
    decreases s.len(),
{
    if s.len() > 0 {
        lemma_unpack_packed(s.drop_last());
        assert(packed(s) / 16 == packed(s.drop_last()));
        assert(packed(s) % 16 == s.last());
        assert(s.drop_last().push(s.last()) =~= s);
    } else {
        assert(s =~= Seq::<u8>::empty());
    }
}

pub proof fn lemma_unpacked_digits(n: nat, len: nat)
    ensures
        unpacked(n, len).len() == len,
        forall|i: int| 0 <= i < len ==> #[trigger] unpacked(n, len)[i] < 16,
    decreases len,
{
    if len > 0 {
        lemma_unpacked_digits(n / 16, (len - 1) as nat);
    }
}

/// Packing the digits of a number gives the number back, as far as the
/// digits reach.
pub proof fn lemma_pack_unpacked(n: nat, len: nat)
    ensures
        packed(unpacked(n, len)) == n % pow16(len),
    decreases len,
{
    if len > 0 {
        let rest = unpacked(n / 16, (len - 1) as nat);
        lemma_pack_unpacked(n / 16, (len - 1) as nat);
        lemma_pow16_monotone(0, (len - 1) as nat);
        assert(unpacked(n, len).drop_last() =~= rest);
        let p = pow16((len - 1) as nat) as int;
        vstd::arithmetic::div_mod::lemma_mod_breakdown(n as int, 16, p);
    }
}

pub proof fn lemma_angle_sum_bounds(s: Seq<u8>, from: int, to: int)
    requires
        from <= to,
    ensures
        to - from <= angle_sum(s, from, to) <= 2 * (to - from),
    decreases to - from,
{
    if from < to {
        lemma_angle_sum_bounds(s, from, to - 1);
    }
}

pub proof fn lemma_angle_sum_split(s: Seq<u8>, from: int, mid: int, to: int)
    requires
        from <= mid <= to,
    ensures
        angle_sum(s, from, to) == angle_sum(s, from, mid) + angle_sum(s, mid, to),
    decreases to - mid,
{
    if mid < to {
        lemma_angle_sum_split(s, from, mid, to - 1);
    }
}

/// The angular width of a range depends only on the pieces in it.
pub proof fn lemma_angle_sum_shift(s: Seq<u8>, t: Seq<u8>, from: int, to: int, off: int)
    requires
        from <= to,
        forall|i: int| from <= i < to ==> s[i] == t[i + off],
    ensures
        angle_sum(s, from, to) == angle_sum(t, from + off, to + off),
    decreases to - from,
{
    if from < to {
        lemma_angle_sum_shift(s, t, from, to - 1, off);
    }
}

/// The angular width of a range read backwards.
pub proof fn lemma_angle_sum_reverse(s: Seq<u8>, from: int, to: int)
    requires
        0 <= from <= to <= s.len(),
    ensures
        angle_sum(s.reverse(), from, to) == angle_sum(s, s.len() - to, s.len() - from),
    decreases to - from,
{
    if from < to {
        lemma_angle_sum_reverse(s, from, to - 1);
        lemma_angle_sum_split(s, s.len() - to, s.len() - to + 1, s.len() - from);
        assert(angle_sum(s, s.len() - to, s.len() - to + 1) == angle(s[s.len() - to])) by {
            assert(angle_sum(s, s.len() - to, s.len() - to) == 0);
        }
    }
}

/// What `reach` finds: the first position where the target is met.
pub proof fn lemma_reach(s: Seq<u8>, from: int, k: int, target: int)
    requires
        from <= k <= s.len(),
    ensures
        k <= reach(s, from, k, target) <= s.len(),
        reach(s, from, k, target) < s.len() ==> angle_sum(s, from, reach(s, from, k, target))
            >= target,
        forall|j: int| k <= j < reach(s, from, k, target) ==> angle_sum(s, from, j) < target,
    decreases s.len() - k,
{
    if !(k >= s.len() || angle_sum(s, from, k) >= target) {
        lemma_reach(s, from, k + 1, target);
    }
}

/// `reach` is the position `r` if the target is met there and at no earlier
/// position from `k` on.
pub proof fn lemma_reach_is(s: Seq<u8>, from: int, k: int, target: int, r: int)
    requires
        from <= k <= r <= s.len(),
        forall|j: int| k <= j < r ==> angle_sum(s, from, j) < target,
        r == s.len() || angle_sum(s, from, r) >= target,
    ensures
        reach(s, from, k, target) == r,
    decreases r - k,
{
    if k < r {
        lemma_reach_is(s, from, k + 1, target, r);
    }
}

/// The kind of the corner pieces.
pub open spec fn is_corner() -> spec_fn(u8) -> bool {
    |p: u8| p % 2 == 0
}

/// The kind of the edge pieces.
pub open spec fn is_edge() -> spec_fn(u8) -> bool {
    |p: u8| p % 2 == 1
}

/// The kind of the corners of the black face.
pub open spec fn is_black_corner() -> spec_fn(u8) -> bool {
    |p: u8| p % 2 == 0 && p < 8
}

/// The kind of the corners of the white face.
pub open spec fn is_white_corner() -> spec_fn(u8) -> bool {
    |p: u8| p % 2 == 0 && p >= 8
}

/// A range of pieces spans one unit for each piece and one more for each
/// corner.
pub proof fn lemma_angle_sum_count(s: Seq<u8>, n: int)
    requires
        0 <= n <= s.len(),
    ensures
        angle_sum(s, 0, n) == n + count(s.take(n), is_corner()),
        angle_sum(s, 0, n) == 2 * n - count(s.take(n), is_edge()),
    decreases n,
{
    if n > 0 {
        lemma_angle_sum_count(s, n - 1);
        lemma_count_take(s, n - 1, is_corner());
        lemma_count_take(s, n - 1, is_edge());
    } else {
        assert(s.take(0).len() == 0);
    }
}

/// A permutation of the sixteen pieces holds eight corners and eight edges,
/// four corners of each face.
pub proof fn lemma_permutation_counts(s: Seq<u8>)
    requires
        is_permutation(s),
    ensures
        count(s, is_corner()) == 8,
        count(s, is_edge()) == 8,
        count(s, is_black_corner()) == 4,
        count(s, is_white_corner()) == 4,
        angle_sum(s, 0, 16) == 24,
{
    assert(distinct_below(s, 16));
    lemma_count_permutation(s, 16, is_corner());
    lemma_count_permutation(s, 16, is_edge());
    lemma_count_permutation(s, 16, is_black_corner());
    lemma_count_permutation(s, 16, is_white_corner());
    reveal_with_fuel(count_below, 17);
    assert(count_below(16, is_corner()) == 8);
    assert(count_below(16, is_edge()) == 8);
    assert(count_below(16, is_black_corner()) == 4);
    assert(count_below(16, is_white_corner()) == 4);
    lemma_angle_sum_count(s, 16);
    assert(s.take(16) =~= s);
}

/// Ranges of two sequences whose pieces agree in kind span the same.
pub proof fn lemma_angle_sum_same_kinds(s: Seq<u8>, t: Seq<u8>, from: int, to: int, off: int)
    requires
        from <= to,
        forall|i: int| from <= i < to ==> angle(s[i]) == angle(#[trigger] t[i + off]),
    ensures
        angle_sum(s, from, to) == angle_sum(t, from + off, to + off),
    decreases to - from,
{
    if from < to {
        lemma_angle_sum_same_kinds(s, t, from, to - 1, off);
        assert(angle(s[to - 1]) == angle(t[to - 1 + off]));
    }
}

/// Where a range spans the target exactly, `reach` ends there.
pub proof fn lemma_reach_exact(s: Seq<u8>, from: int, target: int, r: int)
    requires
        0 <= from <= r <= s.len(),
        angle_sum(s, from, r) == target,
    ensures
        reach(s, from, from, target) == r,
{
    assert forall|j: int| from <= j < r implies angle_sum(s, from, j) < target by {
        lemma_angle_sum_split(s, from, j, r);
        lemma_angle_sum_bounds(s, j, r);
    }
    lemma_reach_is(s, from, from, target, r);
}

/// In a well-formed configuration the lower layer spans twelve units too.
pub proof fn lemma_layers(s: Seq<u8>)
    requires
        well_formed(s),
    ensures
        4 <= divide(s) <= 12,
        angle_sum(s, 0, divide(s)) == 12,
        angle_sum(s, divide(s), 16) == 12,
{
    lemma_permutation_counts(s);
    lemma_reach(s, 0, 0, 12);
    lemma_angle_sum_bounds(s, 0, 16);
    let d = divide(s);
    lemma_angle_sum_split(s, 0, d, 16);
    lemma_angle_sum_bounds(s, 0, d);
    lemma_angle_sum_bounds(s, d, 16);
}

/// Where the first `d` pieces span twelve units, they are the upper layer.
pub proof fn lemma_divide_is(s: Seq<u8>, d: int)
    requires
        0 <= d <= s.len(),
        angle_sum(s, 0, d) == 12,
    ensures
        divide(s) == d,
{
    lemma_reach_exact(s, 0, 12, d);
}

/// A rearrangement of a permutation is a permutation.
pub proof fn lemma_rearranged(s: Seq<u8>, t: Seq<u8>, at: spec_fn(int) -> int)
    requires
        is_permutation(s),
        t.len() == 16,
        forall|i: int| 0 <= i < 16 ==> 0 <= #[trigger] at(i) < 16 && t[i] == s[at(i)],
        forall|i: int, j: int| 0 <= i < j < 16 ==> #[trigger] at(i) != #[trigger] at(j),
    ensures
        is_permutation(t),
{
    assert forall|i: int| 0 <= i < 16 implies #[trigger] t[i] < 16 by {
        assert(t[i] == s[at(i)]);
    }
    assert forall|i: int, j: int| 0 <= i < j < 16 implies t[i] != t[j] by {
        let a = at(i);
        let b = at(j);
        assert(t[i] == s[a] && t[j] == s[b]);
        if a < b {
            assert(s[a] != s[b]);
        } else {
            assert(s[b] != s[a]);
        }
    }
}

/// A renaming of the pieces that keeps them apart keeps a permutation.
pub proof fn lemma_renamed(s: Seq<u8>, g: spec_fn(u8) -> u8)
    requires
        is_permutation(s),
        forall|p: u8| p < 16 ==> #[trigger] g(p) < 16,
        forall|p: u8, q: u8| p < 16 && q < 16 && p != q ==> #[trigger] g(p) != #[trigger] g(q),
    ensures
        is_permutation(s.map_values(g)),
{
    let t = s.map_values(g);
    assert forall|i: int| 0 <= i < 16 implies #[trigger] t[i] < 16 by {
        assert(s[i] < 16);
    }
    assert forall|i: int, j: int| 0 <= i < j < 16 implies t[i] != t[j] by {
        assert(s[i] < 16 && s[j] < 16 && s[i] != s[j]);
    }
}

/// Exchanging the layers keeps a configuration well formed.
pub proof fn lemma_reverse_well_formed(s: Seq<u8>)
    requires
        well_formed(s),
    ensures
        well_formed(s.reverse()),
        divide(s.reverse()) == 16 - divide(s),
{
    let t = s.reverse();
    lemma_layers(s);
    lemma_rearranged(s, t, |i: int| 15 - i);
    lemma_angle_sum_reverse(s, 0, 16 - divide(s));
    lemma_divide_is(t, 16 - divide(s));
}

/// Where each piece comes from when the layers are turned.
pub proof fn lemma_layers_turned_pieces(s: Seq<u8>, up: int, down: int)
    requires
        s.len() == 16,
        0 <= up <= divide(s) <= 16,
        0 <= down <= 16 - divide(s),
    ensures
        layers_turned(s, up, down).len() == 16,
        forall|j: int| 0 <= j < divide(s) - up ==> #[trigger] layers_turned(s, up, down)[j] == s[j + up],
        forall|j: int|
            divide(s) - up <= j < divide(s) ==> #[trigger] layers_turned(s, up, down)[j] == s[j - (
            divide(s) - up)],
        forall|j: int|
            divide(s) <= j < 16 - down ==> #[trigger] layers_turned(s, up, down)[j] == s[j + down],
        forall|j: int|
            16 - down <= j < 16 ==> #[trigger] layers_turned(s, up, down)[j] == s[j - (16 - divide(
                s,
            ) - down)],
{
}

/// Turning the layers keeps a configuration well formed, and the layers
/// their sizes.
pub proof fn lemma_turn_well_formed(s: Seq<u8>, up: int, down: int)
    requires
        well_formed(s),
        0 <= up <= divide(s),
        0 <= down <= 16 - divide(s),
    ensures
        well_formed(layers_turned(s, up, down)),
        divide(layers_turned(s, up, down)) == divide(s),
{
    let t = layers_turned(s, up, down);
    let d = divide(s);
    lemma_layers(s);
    let at = |i: int|
        if i < d - up {
            i + up
        } else if i < d {
            i - (d - up)
        } else if i < 16 - down {
            i + down
        } else {
            i - (16 - d - down) + d - d
        };
    lemma_layers_turned_pieces(s, up, down);
    assert forall|i: int| 0 <= i < 16 implies 0 <= #[trigger] at(i) < 16 && t[i] == s[at(i)] by {}
    assert forall|i: int, j: int| 0 <= i < j < 16 implies #[trigger] at(i) != #[trigger] at(j) by {}
    lemma_rearranged(s, t, at);
    lemma_angle_sum_shift(t, s, 0, d - up, up);
    lemma_angle_sum_shift(t, s, d - up, d, -(d - up));
    lemma_angle_sum_split(t, 0, d - up, d);
    lemma_angle_sum_split(s, 0, up, d);
    lemma_divide_is(t, d);
}

/// The mirror image of a well-formed configuration is well formed, with
/// layers of the same sizes.
pub proof fn lemma_mirror_well_formed(s: Seq<u8>)
    requires
        well_formed(s),
    ensures
        well_formed(mirrored_at(s, divide(s))),
        divide(mirrored_at(s, divide(s))) == divide(s),
{
    let d = divide(s);
    lemma_layers(s);
    let r = s.subrange(0, d).reverse() + s.subrange(d, 16).reverse();
    let t = mirrored_at(s, d);
    let at = |i: int|
        if i < d {
            d - 1 - i
        } else {
            16 - 1 - (i - d)
        };
    assert forall|i: int| 0 <= i < 16 implies 0 <= #[trigger] at(i) < 16 && r[i] == s[at(i)] by {}
    assert forall|i: int, j: int| 0 <= i < j < 16 implies #[trigger] at(i) != #[trigger] at(j) by {}
    lemma_rearranged(s, r, at);
    lemma_renamed(r, |p: u8| mirrored_piece(p));
    assert(t =~= r.map_values(|p: u8| mirrored_piece(p)));
    assert forall|i: int| 0 <= i < d implies angle(#[trigger] t[i]) == angle(s.subrange(0, d).reverse()[i]) by {
        assert(r[i] < 16);
    }
    lemma_angle_sum_same_kinds(s.subrange(0, d).reverse(), t, 0, d, 0);
    lemma_angle_sum_reverse(s.subrange(0, d), 0, d);
    lemma_angle_sum_shift(s.subrange(0, d), s, 0, d, 0);
    lemma_divide_is(t, d);
}

/// Cycling the colours keeps the kind and the face of a piece, and can be
/// undone.
pub proof fn lemma_cycled_piece(p: u8, up: int, down: int)
    requires
        p < 16,
        0 <= up <= 4,
        0 <= down <= 4,
    ensures
        cycled_piece(p, up, down) < 16,
        cycled_piece(p, up, down) % 2 == p % 2,
        cycled_piece(p, up, down) < 8 <==> p < 8,
        p < 8 ==> p == (cycled_piece(p, up, down) + up * 2) % 8,
        p >= 8 ==> p == (cycled_piece(p, up, down) - 8 + down * 2) % 8 + 8,
{
    if p < 8 {
        let v = 8 + p - up * 2;
        assert(0 <= v < 16);
        assert(v % 8 == if v >= 8 {
            v - 8
        } else {
            v
        });
        let c = v % 8;
        assert(cycled_piece(p, up, down) == c);
        assert((c + up * 2) % 8 == p);
    } else {
        let v = p - down * 2;
        assert(0 <= v < 16);
        assert(v % 8 == if v >= 8 {
            v - 8
        } else {
            v
        });
        let c = v % 8;
        assert(cycled_piece(p, up, down) == c + 8);
        assert((c + down * 2) % 8 + 8 == p);
    }
}

/// Cycling the colours keeps a configuration well formed, and every piece
/// its kind.
pub proof fn lemma_cycle_well_formed(s: Seq<u8>, up: int, down: int)
    requires
        well_formed(s),
        0 <= up <= 4,
        0 <= down <= 4,
    ensures
        well_formed(colours_cycled(s, up, down)),
        divide(colours_cycled(s, up, down)) == divide(s),
        forall|i: int| 0 <= i < 16 ==> #[trigger] colours_cycled(s, up, down)[i] % 2 == s[i] % 2,
{
    let t = colours_cycled(s, up, down);
    let d = divide(s);
    lemma_layers(s);
    if up != 0 || down != 0 {
        let g = |p: u8| cycled_piece(p, up, down);
        assert forall|p: u8| p < 16 implies #[trigger] g(p) < 16 by {
            lemma_cycled_piece(p, up, down);
        }
        assert forall|p: u8, q: u8| p < 16 && q < 16 && p != q implies #[trigger] g(p)
            != #[trigger] g(q) by {
            lemma_cycled_piece(p, up, down);
            lemma_cycled_piece(q, up, down);
        }
        lemma_renamed(s, g);
    }
    assert forall|i: int| 0 <= i < 16 implies #[trigger] t[i] % 2 == s[i] % 2 by {
        assert(s[i] < 16);
        lemma_cycled_piece(s[i], up, down);
    }
    assert forall|i: int| 0 <= i < 16 implies #[trigger] t[i] % 2 == s[i] % 2 by {
        assert(s[i] < 16);
    }
    assert forall|i: int| 0 <= i < d implies angle(s[i]) == angle(#[trigger] t[i + 0]) by {
        assert(t[i] % 2 == s[i] % 2);
    }
    lemma_angle_sum_same_kinds(s, t, 0, d, 0);
    lemma_divide_is(t, d);
}

/// Exchanging black and white keeps a configuration well formed, and every
/// piece its kind.
pub proof fn lemma_colour_flip_well_formed(s: Seq<u8>)
    requires
        well_formed(s),
    ensures
        well_formed(colours_flipped(s)),
        divide(colours_flipped(s)) == divide(s),
        forall|i: int| 0 <= i < 16 ==> #[trigger] colours_flipped(s)[i] % 2 == s[i] % 2,
{
    let t = colours_flipped(s);
    let d = divide(s);
    lemma_layers(s);
    lemma_renamed(s, |p: u8| colour_flipped_piece(p));
    assert forall|i: int| 0 <= i < 16 implies #[trigger] t[i] % 2 == s[i] % 2 by {
        assert(s[i] < 16);
    }
    assert forall|i: int| 0 <= i < d implies angle(s[i]) == angle(#[trigger] t[i + 0]) by {
        assert(t[i] % 2 == s[i] % 2);
    }
    lemma_angle_sum_same_kinds(s, t, 0, d, 0);
    lemma_divide_is(t, d);
}

/// The number of pieces in the layer that begins at position `from`.
pub open spec fn layer_size(s: Seq<u8>, from: int) -> int {
    reach(s, from, from, 12) - from
}

/// The pairs of opposite piece boundaries among the first `n` boundaries of
/// the layer that begins at `from`: the angle of the first boundary, and the
/// number of pieces before each of the two.
pub open spec fn opposite_pairs(s: Seq<u8>, from: int, n: int) -> Seq<(int, int, int)>
    decreases n,
{
    if n <= 0 {
        Seq::empty()
    } else {
        let rest = opposite_pairs(s, from, n - 1);
        let second = n - 1;
        let a = angle_sum(s, from, from + second);
        let first = reach(s, from, from, a - 6) - from;
        if 6 <= a < 12 && angle_sum(s, from, from + first) == a - 6 {
            rest.push((a - 6, first, second))
        } else {
            rest
        }
    }
}

/// The pairs of opposite piece boundaries of the layer that begins at `from`.
pub open spec fn layer_pairs(s: Seq<u8>, from: int) -> Seq<(int, int, int)> {
    opposite_pairs(s, from, layer_size(s, from))
}

/// The turns that one pair of boundaries of each layer gives: all four, or
/// one of each two that differ by a half turn of the whole puzzle.
pub open spec fn pair_turns(up: (int, int, int), down: (int, int, int), all: bool) -> Seq<
    (int, int),
> {
    if all {
        seq![(up.1, down.1), (up.2, down.2), (up.1, down.2), (up.2, down.1)]
    } else {
        seq![
            if up.0 + down.0 < 7 {
                (up.1, down.1)
            } else {
                (up.2, down.2)
            },
            if up.0 < down.0 {
                (up.1, down.2)
            } else {
                (up.2, down.1)
            },
        ]
    }
}

/// The turns that the first `n` pairs of the upper layer give with one pair
/// of the lower layer.
pub open spec fn turns_with(
    ups: Seq<(int, int, int)>,
    down: (int, int, int),
    n: int,
    all: bool,
) -> Seq<(int, int)>
    decreases n,
{
    if n <= 0 {
        Seq::empty()
    } else {
        turns_with(ups, down, n - 1, all) + pair_turns(ups[n - 1], down, all)
    }
}

/// The turns that the pairs of the upper layer give with the first `m` pairs
/// of the lower layer.
pub open spec fn turns_of(
    ups: Seq<(int, int, int)>,
    downs: Seq<(int, int, int)>,
    m: int,
    all: bool,
) -> Seq<(int, int)>
    decreases m,
{
    if m <= 0 {
        Seq::empty()
    } else {
        turns_of(ups, downs, m - 1, all) + turns_with(ups, downs[m - 1], ups.len() as int, all)
    }
}

/// The layer turns after which the slice move is possible: all of them, or
/// one of each two that differ by a half turn of the whole puzzle.
pub open spec fn slice_turns(s: Seq<u8>, all: bool) -> Seq<(int, int)> {
    let ups = layer_pairs(s, 0);
    let downs = layer_pairs(s, divide(s));
    turns_of(ups, downs, downs.len() as int, all)
}

/// The layer turns after which the slice move is possible, one of each two
/// that differ by a half turn of the whole puzzle.
pub open spec fn unique_turns(s: Seq<u8>) -> Seq<(int, int)> {
    slice_turns(s, false)
}

/// All layer turns after which the slice move is possible.
pub open spec fn all_turns(s: Seq<u8>) -> Seq<(int, int)> {
    slice_turns(s, true)
}

/// The pairs of boundaries as the search holds them.
pub open spec fn pairs_view(v: Seq<(u8, usize, usize)>) -> Seq<(int, int, int)> {
    v.map_values(|t: (u8, usize, usize)| (t.0 as int, t.1 as int, t.2 as int))
}

/// The turns as a list of pairs of numbers.
pub open spec fn turns_view(v: Seq<(usize, usize)>) -> Seq<(int, int)> {
    v.map_values(|t: (usize, usize)| (t.0 as int, t.1 as int))
}

/// A turn by `up` and `down` pieces can be made, and the slice move after it.
pub open spec fn turn_allows_slice(s: Seq<u8>, up: int, down: int) -> bool {
    &&& 0 <= up <= divide(s)
    &&& 0 <= down <= 16 - divide(s)
    &&& sliceable(layers_turned(s, up, down))
}

/// An angle between zero and twelve as a turn of at most half a circle in
/// either direction.
pub open spec fn signed_angle(a: int) -> int {
    if a % 12 > 6 {
        a % 12 - 12
    } else {
        a % 12
    }
}

/// The turn by `up` and `down` pieces in angular units, as a person would
/// write it.
pub open spec fn human_readable(s: Seq<u8>, up: int, down: int) -> (int, int) {
    (signed_angle(angle_sum(s, 0, up)), signed_angle(angle_sum(s, divide(s), divide(s) + down)))
}

/// What each pair of opposite boundaries holds.
pub proof fn lemma_opposite_pairs(s: Seq<u8>, from: int, n: int)
    requires
        0 <= from,
        0 <= n,
        from + n <= s.len(),
    ensures
        forall|i: int|
            0 <= i < opposite_pairs(s, from, n).len() ==> {
                let p = #[trigger] opposite_pairs(s, from, n)[i];
                &&& 0 <= p.1 < p.2 < n
                &&& 0 <= p.0 < 6
                &&& angle_sum(s, from, from + p.1) == p.0
                &&& angle_sum(s, from, from + p.2) == p.0 + 6
            },
    decreases n,
{
    if n > 0 {
        lemma_opposite_pairs(s, from, n - 1);
        let second = n - 1;
        let a = angle_sum(s, from, from + second);
        let first = reach(s, from, from, a - 6) - from;
        let rest = opposite_pairs(s, from, n - 1);
        let now = opposite_pairs(s, from, n);
        if 6 <= a < 12 && angle_sum(s, from, from + first) == a - 6 {
            lemma_reach(s, from, from, a - 6);
            if first >= second {
                lemma_angle_sum_split(s, from, from + second, from + first);
                lemma_angle_sum_bounds(s, from + second, from + first);
            }
            assert(now == rest.push((a - 6, first, second)));
        }
        assert forall|i: int| 0 <= i < now.len() implies {
            let p = #[trigger] now[i];
            &&& 0 <= p.1 < p.2 < n
            &&& 0 <= p.0 < 6
            &&& angle_sum(s, from, from + p.1) == p.0
            &&& angle_sum(s, from, from + p.2) == p.0 + 6
        } by {
            if i < rest.len() {
                assert(now[i] == rest[i]);
            }
        }
    }
}

/// After a layer is rotated to one of two opposite boundaries, it has a
/// boundary at half its span.
pub proof fn lemma_rotated_half(
    s: Seq<u8>,
    t: Seq<u8>,
    from: int,
    n: int,
    k: int,
    first: int,
    second: int,
) -> (x: int)
    requires
        0 <= from,
        from + n <= s.len(),
        s.len() == t.len(),
        0 <= first < second <= n,
        k == first || k == second,
        angle_sum(s, from, from + n) == 12,
        angle_sum(s, from, from + second) == angle_sum(s, from, from + first) + 6,
        forall|j: int| from <= j < from + n - k ==> #[trigger] t[j] == s[j + k],
        forall|j: int| from + n - k <= j < from + n ==> #[trigger] t[j] == s[j - (n - k)],
    ensures
        0 <= x <= n,
        angle_sum(t, from, from + x) == 6,
        angle_sum(t, from, from + n) == 12,
{
    lemma_angle_sum_shift(t, s, from, from + n - k, k);
    lemma_angle_sum_shift(t, s, from + n - k, from + n, -(n - k));
    lemma_angle_sum_split(t, from, from + n - k, from + n);
    lemma_angle_sum_split(s, from, from + k, from + n);
    lemma_angle_sum_split(s, from, from + first, from + second);
    if k == first {
        let x = second - first;
        lemma_angle_sum_shift(t, s, from, from + x, k);
        x
    } else {
        let x = n - second + first;
        lemma_angle_sum_shift(t, s, from + n - k, from + x, -(n - k));
        lemma_angle_sum_split(t, from, from + n - k, from + x);
        x
    }
}

/// A turn of each layer to one of two opposite boundaries allows the slice
/// move.
pub proof fn lemma_turn_allows_slice(
    s: Seq<u8>,
    up: (int, int, int),
    down: (int, int, int),
    u: int,
    d: int,
)
    requires
        well_formed(s),
        0 <= up.1 < up.2 <= divide(s),
        angle_sum(s, 0, up.2) == angle_sum(s, 0, up.1) + 6,
        0 <= down.1 < down.2 <= 16 - divide(s),
        angle_sum(s, divide(s), divide(s) + down.2) == angle_sum(s, divide(s), divide(s) + down.1)
            + 6,
        u == up.1 || u == up.2,
        d == down.1 || d == down.2,
    ensures
        turn_allows_slice(s, u, d),
{
    let n = divide(s);
    let t = layers_turned(s, u, d);
    lemma_layers(s);
    lemma_turn_well_formed(s, u, d);
    lemma_layers_turned_pieces(s, u, d);
    assert(angle_sum(t, 0, slice_start(t)) == 6) by {
        let x = lemma_rotated_half(s, t, 0, n, u, up.1, up.2);
        lemma_reach_exact(t, 0, 6, x);
    }
    assert(angle_sum(t.reverse(), 0, reach(t.reverse(), 0, 0, 6)) == 6) by {
        let y = lemma_rotated_half(s, t, n, 16 - n, d, down.1, down.2);
        lemma_angle_sum_split(t, n, n + y, 16);
        lemma_angle_sum_reverse(t, 0, 16 - (n + y));
        lemma_reach_exact(t.reverse(), 0, 6, 16 - (n + y));
    }
}

/// Every turn that two lists of pairs of opposite boundaries give allows the
/// slice move.
pub proof fn lemma_turns_allow_slice(
    s: Seq<u8>,
    ups: Seq<(int, int, int)>,
    downs: Seq<(int, int, int)>,
    m: int,
    all: bool,
)
    requires
        well_formed(s),
        0 <= m <= downs.len(),
        forall|i: int|
            0 <= i < ups.len() ==> {
                let p = #[trigger] ups[i];
                0 <= p.1 < p.2 <= divide(s) && angle_sum(s, 0, p.2) == angle_sum(s, 0, p.1) + 6
            },
        forall|i: int|
            0 <= i < downs.len() ==> {
                let p = #[trigger] downs[i];
                0 <= p.1 < p.2 <= 16 - divide(s) && angle_sum(s, divide(s), divide(s) + p.2)
                    == angle_sum(s, divide(s), divide(s) + p.1) + 6
            },
    ensures
        forall|i: int|
            0 <= i < turns_of(ups, downs, m, all).len() ==> turn_allows_slice(
                s,
                (#[trigger] turns_of(ups, downs, m, all)[i]).0,
                turns_of(ups, downs, m, all)[i].1,
            ),
    decreases m,
{
    if m > 0 {
        lemma_turns_allow_slice(s, ups, downs, m - 1, all);
        lemma_turns_with_allow_slice(s, ups, downs[m - 1], ups.len() as int, all);
        let rest = turns_of(ups, downs, m - 1, all);
        let more = turns_with(ups, downs[m - 1], ups.len() as int, all);
        let now = turns_of(ups, downs, m, all);
        assert forall|i: int| 0 <= i < now.len() implies turn_allows_slice(
            s,
            (#[trigger] now[i]).0,
            now[i].1,
        ) by {
            if i < rest.len() {
                assert(now[i] == rest[i]);
            } else {
                assert(now[i] == more[i - rest.len()]);
            }
        }
    }
}

pub proof fn lemma_turns_with_allow_slice(
    s: Seq<u8>,
    ups: Seq<(int, int, int)>,
    down: (int, int, int),
    n: int,
    all: bool,
)
    requires
        well_formed(s),
        0 <= n <= ups.len(),
        forall|i: int|
            0 <= i < ups.len() ==> {
                let p = #[trigger] ups[i];
                0 <= p.1 < p.2 <= divide(s) && angle_sum(s, 0, p.2) == angle_sum(s, 0, p.1) + 6
            },
        0 <= down.1 < down.2 <= 16 - divide(s),
        angle_sum(s, divide(s), divide(s) + down.2) == angle_sum(s, divide(s), divide(s) + down.1)
            + 6,
    ensures
        forall|i: int|
            0 <= i < turns_with(ups, down, n, all).len() ==> turn_allows_slice(
                s,
                (#[trigger] turns_with(ups, down, n, all)[i]).0,
                turns_with(ups, down, n, all)[i].1,
            ),
    decreases n,
{
    if n > 0 {
        lemma_turns_with_allow_slice(s, ups, down, n - 1, all);
        let up = ups[n - 1];
        lemma_turn_allows_slice(s, up, down, up.1, down.1);
        lemma_turn_allows_slice(s, up, down, up.2, down.2);
        lemma_turn_allows_slice(s, up, down, up.1, down.2);
        lemma_turn_allows_slice(s, up, down, up.2, down.1);
        let rest = turns_with(ups, down, n - 1, all);
        let more = pair_turns(up, down, all);
        let now = turns_with(ups, down, n, all);
        assert forall|i: int| 0 <= i < now.len() implies turn_allows_slice(
            s,
            (#[trigger] now[i]).0,
            now[i].1,
        ) by {
            if i < rest.len() {
                assert(now[i] == rest[i]);
            } else {
                assert(now[i] == more[i - rest.len()]);
            }
        }
    }
}

/// After each of the unique turns of a well-formed configuration, and after
/// each of all its turns, the slice move is possible.
pub proof fn lemma_turns_keep_sliceable(s: Seq<u8>, all: bool)
    requires
        well_formed(s),
    ensures
        forall|i: int|
            0 <= i < slice_turns(s, all).len() ==> turn_allows_slice(
                s,
                (#[trigger] slice_turns(s, all)[i]).0,
                slice_turns(s, all)[i].1,
            ),
{
    lemma_layers(s);
    let d = divide(s);
    let ups = layer_pairs(s, 0);
    let downs = layer_pairs(s, d);
    lemma_reach_exact(s, d, 12, 16);
    lemma_opposite_pairs(s, 0, d);
    lemma_opposite_pairs(s, d, 16 - d);
    lemma_turns_allow_slice(s, ups, downs, downs.len() as int, all);
}

/// Both layers are squares: corners and edges alternate in each.
pub open spec fn square_shaped(s: Seq<u8>) -> bool {
    &&& s.len() == 16
    &&& forall|i: int| 0 <= i < 7 ==> (#[trigger] s[i]) % 2 != s[i + 1] % 2
    &&& forall|i: int| 8 <= i < 15 ==> (#[trigger] s[i]) % 2 != s[i + 1] % 2
}

/// The unique turns of a configuration of two squares in which the first and
/// the last piece differ in kind.
pub const SQSQ_UNIQUE_TURNS_BA: [(usize, usize); 16] = [
    (1, 0),
    (5, 0),
    (3, 0),
    (7, 0),
    (0, 1),
    (0, 5),
    (2, 1),
    (6, 1),
    (1, 2),
    (1, 6),
    (7, 2),
    (7, 6),
    (0, 3),
    (0, 7),
    (2, 7),
    (6, 7),
];

/// The unique turns of a configuration of two squares that begins and ends
/// with a corner.
pub const SQSQ_UNIQUE_TURNS_UA: [(usize, usize); 16] = [
    (0, 0),
    (4, 0),
    (2, 0),
    (6, 0),
    (1, 1),
    (5, 1),
    (3, 1),
    (7, 1),
    (0, 2),
    (0, 6),
    (2, 2),
    (2, 6),
    (1, 3),
    (1, 7),
    (7, 7),
    (7, 3),
];

/// The unique turns of a configuration of two squares that begins and ends
/// with an edge.
pub const SQSQ_UNIQUE_TURNS_DA: [(usize, usize); 16] = [
    (0, 0),
    (4, 0),
    (2, 0),
    (6, 0),
    (1, 1),
    (1, 5),
    (3, 1),
    (7, 1),
    (0, 2),
    (0, 6),
    (2, 2),
    (2, 6),
    (1, 3),
    (1, 7),
    (7, 7),
    (3, 7),
];

/// All turns of a configuration of two squares in which the first and the
/// last piece differ in kind.
pub const SQSQ_ALL_TURNS_A: [(usize, usize); 32] = [
    (1, 0),
    (5, 0),
    (3, 0),
    (7, 0),
    (1, 4),
    (5, 4),
    (3, 4),
    (7, 4),
    (0, 1),
    (4, 1),
    (2, 1),
    (6, 1),
    (0, 5),
    (4, 5),
    (2, 5),
    (6, 5),
    (1, 2),
    (5, 2),
    (3, 2),
    (7, 2),
    (1, 6),
    (5, 6),
    (3, 6),
    (7, 6),
    (0, 3),
    (4, 3),
    (2, 3),
    (6, 3),
    (0, 7),
    (4, 7),
    (2, 7),
    (6, 7),
];

/// All turns of a configuration of two squares in which the first and the
/// last piece agree in kind.
pub const SQSQ_ALL_TURNS_M: [(usize, usize); 32] = [
    (0, 0),
    (4, 0),
    (2, 0),
    (6, 0),
    (0, 4),
    (4, 4),
    (2, 4),
    (6, 4),
    (1, 1),
    (5, 1),
    (3, 1),
    (7, 1),
    (1, 5),
    (5, 5),
    (3, 5),
    (7, 5),
    (0, 2),
    (4, 2),
    (2, 2),
    (6, 2),
    (0, 6),
    (4, 6),
    (2, 6),
    (6, 6),
    (1, 3),
    (5, 3),
    (3, 3),
    (7, 3),
    (1, 7),
    (5, 7),
    (3, 7),
    (7, 7),
];

/// The unique turns of a configuration of two squares.
pub open spec fn unique_turns_sqsq(s: Seq<u8>) -> Seq<(usize, usize)> {
    if s[0] % 2 != s[15] % 2 {
        SQSQ_UNIQUE_TURNS_BA@
    } else if s[0] % 2 == 0 {
        SQSQ_UNIQUE_TURNS_UA@
    } else {
        SQSQ_UNIQUE_TURNS_DA@
    }
}

/// All turns of a configuration of two squares.
pub open spec fn all_turns_sqsq(s: Seq<u8>) -> Seq<(usize, usize)> {
    if s[0] % 2 != s[15] % 2 {
        SQSQ_ALL_TURNS_A@
    } else {
        SQSQ_ALL_TURNS_M@
    }
}

/// Two squares span twelve units each, and six in each half.
pub proof fn lemma_square_shaped(s: Seq<u8>)
    requires
        square_shaped(s),
    ensures
        divide(s) == 8,
        angle_sum(s, 0, 8) == 12,
        angle_sum(s, 8, 16) == 12,
        sliceable(s),
        slice_start(s) == 4,
        slice_end(s) == 12,
{
    reveal_with_fuel(angle_sum, 9);
    assert(s[0] % 2 != s[1] % 2 && s[1] % 2 != s[2] % 2 && s[2] % 2 != s[3] % 2 && s[3] % 2
        != s[4] % 2 && s[4] % 2 != s[5] % 2 && s[5] % 2 != s[6] % 2 && s[6] % 2 != s[7] % 2);
    assert(s[8] % 2 != s[9] % 2 && s[9] % 2 != s[10] % 2 && s[10] % 2 != s[11] % 2 && s[11] % 2
        != s[12] % 2 && s[12] % 2 != s[13] % 2 && s[13] % 2 != s[14] % 2 && s[14] % 2 != s[15]
        % 2);
    assert(angle_sum(s, 0, 4) == 6);
    assert(angle_sum(s, 0, 8) == 12);
    assert(angle_sum(s, 8, 16) == 12);
    assert(angle_sum(s, 12, 16) == 6);
    lemma_divide_is(s, 8);
    lemma_reach_exact(s, 0, 6, 4);
    lemma_angle_sum_reverse(s, 0, 4);
    lemma_reach_exact(s.reverse(), 0, 6, 4);
}

/// Whether a number is even.
#[verifier::opaque]
pub open spec fn even(i: int) -> bool {
    i % 2 == 0
}

/// A sum is even where both numbers are even or both are odd.
pub proof fn lemma_even_sum(a: int, b: int)
    ensures
        even(a + b) == (even(a) == even(b)),
        even(a - b) == (even(a) == even(b)),
        even(0),
        !even(1),
        even(8),
        !even(15),
{
    reveal(even);
}

/// Twice a number is even, and one more is odd.
pub proof fn lemma_even_double(k: int)
    ensures
        even(2 * k),
        !even(2 * k + 1),
{
    reveal(even);
}

/// The mirror image of a piece is of its kind.
pub proof fn lemma_mirrored_piece(p: u8)
    requires
        p < 16,
    ensures
        mirrored_piece(p) < 16,
        mirrored_piece(p) % 2 == p % 2,
        mirrored_piece(p) < 8 <==> p >= 8,
{
    if p < 4 {
    } else if p < 8 {
    } else if p < 12 {
    } else {
    }
}

/// Where the kinds of the pieces alternate from `from` on, the kind of each
/// follows from the kind of the first.
pub proof fn lemma_alternating_kind(s: Seq<u8>, from: int, len: int, i: int)
    requires
        forall|j: int| from <= j < from + len - 1 ==> (#[trigger] s[j]) % 2 != s[j + 1] % 2,
        from <= i < from + len,
    ensures
        (s[i] % 2 == s[from] % 2) == even(i - from),
    decreases i - from,
{
    if i > from {
        lemma_alternating_kind(s, from, len, i - 1);
        assert(s[i - 1] % 2 != s[i] % 2);
        lemma_even_sum(i - 1 - from, 1);
    } else {
        lemma_even_sum(0, 0);
    }
}

/// In two squares the kind of every piece follows from the kind of the
/// first piece of its layer.
pub proof fn lemma_square_kinds(s: Seq<u8>)
    requires
        square_shaped(s),
    ensures
        forall|i: int| 0 <= i < 8 ==> ((#[trigger] s[i]) % 2 == s[0] % 2) == even(i),
        forall|i: int| 8 <= i < 16 ==> ((#[trigger] s[i]) % 2 == s[8] % 2) == even(i),
{
    assert forall|i: int| 0 <= i < 8 implies ((#[trigger] s[i]) % 2 == s[0] % 2) == even(i) by {
        lemma_alternating_kind(s, 0, 8, i);
    }
    assert forall|i: int| 8 <= i < 16 implies ((#[trigger] s[i]) % 2 == s[8] % 2) == even(i) by {
        lemma_alternating_kind(s, 8, 8, i);
        lemma_even_sum(i, 8);
    }
}

/// Pieces whose kinds alternate within each layer form two squares.
pub proof fn lemma_kinds_square(t: Seq<u8>, a: bool, b: bool)
    requires
        t.len() == 16,
        forall|i: int| 0 <= i < 8 ==> ((#[trigger] t[i]) % 2 == 0) == (a == even(i)),
        forall|i: int| 8 <= i < 16 ==> ((#[trigger] t[i]) % 2 == 0) == (b == even(i)),
    ensures
        square_shaped(t),
{
    assert forall|i: int| 0 <= i < 7 implies (#[trigger] t[i]) % 2 != t[i + 1] % 2 by {
        assert((t[i + 1] % 2 == 0) == (a == even(i + 1)));
        lemma_even_sum(i, 1);
    }
    assert forall|i: int| 8 <= i < 15 implies (#[trigger] t[i]) % 2 != t[i + 1] % 2 by {
        assert((t[i + 1] % 2 == 0) == (b == even(i + 1)));
        lemma_even_sum(i, 1);
    }
}

/// Turning the layers of two squares leaves two squares.
pub proof fn lemma_square_turned(s: Seq<u8>, up: int, down: int)
    requires
        square_shaped(s),
        0 <= up <= 8,
        0 <= down <= 8,
    ensures
        square_shaped(layers_turned(s, up, down)),
        (layers_turned(s, up, down)[0] % 2 == s[0] % 2) == even(up),
        (layers_turned(s, up, down)[8] % 2 == s[8] % 2) == even(down),
{
    let t = layers_turned(s, up, down);
    assert(divide(s) == 8) by {
        lemma_square_shaped(s);
    }
    lemma_layers_turned_pieces(s, up, down);
    let a = (s[0] % 2 == 0) == even(up);
    let b = (s[8] % 2 == 0) == even(down);
    assert forall|i: int| 0 <= i < 8 implies ((#[trigger] t[i]) % 2 == 0) == (a == even(i)) by {
        lemma_square_kinds(s);
        if i < 8 - up {
            assert(t[i] == s[i + up]);
            lemma_even_sum(i, up);
        } else {
            assert(t[i] == s[i - (8 - up)]);
            lemma_even_sum(i, 8 - up);
            lemma_even_sum(8, up);
        }
    }
    assert forall|i: int| 8 <= i < 16 implies ((#[trigger] t[i]) % 2 == 0) == (b == even(i)) by {
        lemma_square_kinds(s);
        if i < 16 - down {
            assert(t[i] == s[i + down]);
            lemma_even_sum(i, down);
        } else {
            assert(t[i] == s[i - (8 - down)]);
            lemma_even_sum(i, 8 - down);
            lemma_even_sum(8, down);
        }
    }
    lemma_kinds_square(t, a, b);
    lemma_even_sum(0, 0);
    assert((t[0] % 2 == 0) == (a == even(0)));
    assert((t[8] % 2 == 0) == (b == even(8)));
}

/// The slice move leaves two squares where the layers differ in the kind of
/// their first pieces.
pub proof fn lemma_square_sliced(t: Seq<u8>)
    requires
        square_shaped(t),
        t[0] % 2 != t[8] % 2,
    ensures
        square_shaped(slice_turned(t)),
{
    lemma_square_shaped(t);
    lemma_square_kinds(t);
    let r = slice_turned(t);
    let a = t[0] % 2 == 0;
    let b = t[8] % 2 == 0;
    assert(r.len() == 16);
    assert forall|i: int| 0 <= i < 8 implies ((#[trigger] r[i]) % 2 == 0) == (a == even(i)) by {
        if i >= 4 {
            assert(r[i] == t[15 - i]);
            lemma_even_sum(15, i);
        } else {
            assert(r[i] == t[i]);
        }
    }
    assert forall|i: int| 8 <= i < 16 implies ((#[trigger] r[i]) % 2 == 0) == (b == even(i)) by {
        if i < 12 {
            assert(r[i] == t[15 - i]);
            lemma_even_sum(15, i);
        } else {
            assert(r[i] == t[i]);
        }
    }
    lemma_kinds_square(r, a, b);
}

/// A turn of two squares after which the layers differ in the kind of their
/// first pieces allows the slice move, and the slice move leaves two squares.
pub proof fn lemma_square_turn(s: Seq<u8>, up: int, down: int)
    requires
        square_shaped(s),
        0 <= up <= 8,
        0 <= down <= 8,
        !even(up + down) <==> s[0] % 2 != s[15] % 2,
    ensures
        turn_allows_slice(s, up, down),
        square_shaped(layers_turned(s, up, down)),
        square_shaped(slice_turned(layers_turned(s, up, down))),
{
    let t = layers_turned(s, up, down);
    lemma_square_turned(s, up, down);
    assert(divide(s) == 8) by {
        lemma_square_shaped(s);
    }
    assert(sliceable(t)) by {
        lemma_square_shaped(t);
    }
    assert(s[15] % 2 != s[8] % 2) by {
        lemma_square_kinds(s);
        lemma_even_sum(0, 0);
    }
    lemma_even_sum(up, down);
    assert(t[0] % 2 != t[8] % 2);
    lemma_square_sliced(t);
}

/// Where the slice line lies in a well-formed configuration that it does not
/// cut a piece of.
pub proof fn lemma_slice_line(s: Seq<u8>)
    requires
        well_formed(s),
        sliceable(s),
    ensures
        0 < slice_start(s) < divide(s) < slice_end(s) < 16,
        angle_sum(s, 0, slice_start(s)) == 6,
        angle_sum(s, slice_start(s), divide(s)) == 6,
        angle_sum(s, divide(s), slice_end(s)) == 6,
        angle_sum(s, slice_end(s), 16) == 6,
{
    let a = slice_start(s);
    let b = slice_end(s);
    let d = divide(s);
    lemma_layers(s);
    lemma_reach(s, 0, 0, 6);
    lemma_reach(s.reverse(), 0, 0, 6);
    lemma_angle_sum_bounds(s, 0, a);
    lemma_angle_sum_bounds(s.reverse(), 0, 16 - b);
    lemma_angle_sum_reverse(s, 0, 16 - b);
    if a >= d {
        lemma_angle_sum_split(s, 0, d, a);
        lemma_angle_sum_bounds(s, d, a);
    }
    if d >= b {
        lemma_angle_sum_split(s, b, d, 16);
        lemma_angle_sum_bounds(s, b, d);
    }
    lemma_angle_sum_split(s, 0, a, d);
    lemma_angle_sum_split(s, d, b, 16);
}

/// The configuration after one of the unique turns, chosen by a number, and
/// the slice move; the configuration itself where it has no turn.
pub open spec fn scrambled_once(s: Seq<u8>, choice: int) -> Seq<u8> {
    let turns = unique_turns(s);
    if turns.len() > 0 {
        let turn = turns[choice % (turns.len() as int)];
        slice_turned(layers_turned(s, turn.0, turn.1))
    } else {
        s
    }
}

/// The configuration that the first `n` of the given numbers lead to from
/// the solved one, a turn and the slice move for each.
pub open spec fn scrambled_by(choices: Seq<usize>, n: int) -> Seq<u8>
    decreases n,
{
    if n <= 0 {
        solved_pieces()
    } else {
        scrambled_once(scrambled_by(choices, n - 1), choices[n - 1] as int)
    }
}

/// The solved configuration is a permutation in the shape of two squares.
pub proof fn lemma_solved()
    ensures
        is_permutation(solved_pieces()),
        square_shaped(solved_pieces()),
        well_formed(solved_pieces()),
        sliceable(solved_pieces()),
{
    let s = solved_pieces();
    assert forall|i: int| 0 <= i < 7 implies (#[trigger] s[i]) % 2 != s[i + 1] % 2 by {
        assert(s[i + 1] == i + 1);
    }
    assert forall|i: int| 8 <= i < 15 implies (#[trigger] s[i]) % 2 != s[i + 1] % 2 by {
        assert(s[i + 1] == i + 1);
    }
    lemma_square_shaped(s);
}

/// The slice move keeps a permutation, and undoes itself.
pub proof fn lemma_slice_twice(s: Seq<u8>)
    requires
        well_formed(s),
        sliceable(s),
    ensures
        is_permutation(slice_turned(s)),
        slice_start(slice_turned(s)) == slice_start(s),
        slice_end(slice_turned(s)) == slice_end(s),
        angle_sum(slice_turned(s), 0, slice_start(s)) == 6,
        angle_sum(slice_turned(s), slice_end(s), 16) == 6,
        slice_turned(slice_turned(s)) == s,
{
    let a = slice_start(s);
    let b = slice_end(s);
    let t = slice_turned(s);
    lemma_slice_line(s);
    let at = |i: int|
        if a <= i < b {
            a + b - 1 - i
        } else {
            i
        };
    assert forall|i: int| 0 <= i < 16 implies 0 <= #[trigger] at(i) < 16 && t[i] == s[at(i)] by {}
    assert forall|i: int, j: int| 0 <= i < j < 16 implies #[trigger] at(i) != #[trigger] at(
        j,
    ) by {}
    lemma_rearranged(s, t, at);
    lemma_angle_sum_shift(t, s, 0, a, 0);
    lemma_reach_exact(t, 0, 6, a);
    lemma_angle_sum_shift(t, s, b, 16, 0);
    lemma_angle_sum_reverse(t, 0, 16 - b);
    lemma_reach_exact(t.reverse(), 0, 6, 16 - b);
    assert(slice_turned(t) =~= s);
}

/// The slice move keeps a configuration well formed and on the slice line,
/// and undoes itself.
pub proof fn lemma_slice_well_formed(s: Seq<u8>)
    requires
        well_formed(s),
        sliceable(s),
    ensures
        well_formed(slice_turned(s)),
        sliceable(slice_turned(s)),
        slice_turned(slice_turned(s)) == s,
{
    let a = slice_start(s);
    let b = slice_end(s);
    let d = divide(s);
    let t = slice_turned(s);
    lemma_slice_line(s);
    lemma_slice_twice(s);
    let dd = a + (b - d);
    let mid = s.subrange(a, b);
    assert(angle_sum(t, a, dd) == 6) by {
        assert forall|i: int| a <= i < dd implies t[i] == mid.reverse()[i - a] by {}
        lemma_angle_sum_shift(t, mid.reverse(), a, dd, -a);
        lemma_angle_sum_reverse(mid, 0, b - d);
        lemma_angle_sum_shift(mid, s, d - a, b - a, a);
    }
    lemma_angle_sum_split(t, 0, a, dd);
    lemma_divide_is(t, dd);
    lemma_angle_sum_reverse(t, 0, 16 - b);
}

/// Turning the layers back by as many pieces restores the configuration.
pub proof fn lemma_turn_back(s: Seq<u8>, up: int, down: int)
    requires
        well_formed(s),
        0 <= up <= divide(s),
        0 <= down <= 16 - divide(s),
    ensures
        layers_turned(layers_turned(s, up, down), divide(s) - up, 16 - divide(s) - down) == s,
{
    lemma_turn_well_formed(s, up, down);
    lemma_layers(s);
    assert(layers_turned(layers_turned(s, up, down), divide(s) - up, 16 - divide(s) - down)
        =~= s);
}

/// Exchanging the layers twice restores the configuration.
pub proof fn lemma_flip_twice(s: Seq<u8>)
    ensures
        s.reverse().reverse() == s,
{
    assert(s.reverse().reverse() =~= s);
}

/// Mirroring twice at the same boundary restores the configuration.
pub proof fn lemma_mirror_twice(s: Seq<u8>, d: int)
    requires
        s.len() == 16,
        pieces_in_range(s),
        0 <= d <= 16,
    ensures
        mirrored_at(mirrored_at(s, d), d) == s,
{
    let t = mirrored_at(s, d);
    let r = mirrored_at(t, d);
    assert forall|i: int| 0 <= i < 16 implies r[i] == s[i] by {
        let j = if i < d {
            d - 1 - i
        } else {
            16 - 1 - (i - d)
        };
        assert(r[i] == mirrored_piece(t[j]));
        assert(t[j] == mirrored_piece(s[i]));
        assert(s[i] < 16);
    }
    assert(r =~= s);
}

/// Exchanging black and white twice restores the configuration.
pub proof fn lemma_colour_flip_twice(s: Seq<u8>)
    requires
        pieces_in_range(s),
    ensures
        colours_flipped(colours_flipped(s)) == s,
{
    assert forall|i: int| 0 <= i < s.len() implies colours_flipped(colours_flipped(s))[i]
        == s[i] by {
        assert(s[i] < 16);
    }
    assert(colours_flipped(colours_flipped(s)) =~= s);
}

/// Cycling the colours by what is missing to a full turn restores the
/// configuration.
pub proof fn lemma_cycle_back(s: Seq<u8>, up: int, down: int)
    requires
        pieces_in_range(s),
        0 <= up <= 4,
        0 <= down <= 4,
    ensures
        colours_cycled(colours_cycled(s, up, down), 4 - up, 4 - down) == s,
{
    let t = colours_cycled(s, up, down);
    let r = colours_cycled(t, 4 - up, 4 - down);
    assert forall|i: int| 0 <= i < s.len() implies r[i] == s[i] by {
        assert(s[i] < 16);
        lemma_cycled_piece(s[i], up, down);
        lemma_cycled_piece(t[i], 4 - up, 4 - down);
        if up == 0 && down == 0 {
            assert(t[i] == s[i]);
        } else {
            assert(t[i] == cycled_piece(s[i], up, down));
        }
        if up == 4 && down == 4 {
            assert(r[i] == t[i]);
        } else {
            assert(r[i] == cycled_piece(t[i], 4 - up, 4 - down));
        }
    }
    assert(r =~= s);
}

#[derive(Clone, Copy, Debug)]
pub struct Square1 {
    pub pieces: [u8; 16],
}

impl View for Square1 {
    type V = Seq<u8>;

    open spec fn view(&self) -> Seq<u8> {
        self.pieces@
    }
}

impl Square1 {
    /// The solved configuration: piece `i` at position `i`.
    pub fn solved() -> (sq: Square1)
        ensures
            sq@ == solved_pieces(),
    {
        let mut pieces: [u8; 16] = [0; 16];
        let mut i: usize = 0;
        while i < 16
            invariant
                i <= 16,
                forall|j: int| 0 <= j < i ==> pieces@[j] == j,
            decreases 16 - i,
        {
            pieces[i] = i as u8;
            i += 1;
        }
        assert(pieces@ =~= solved_pieces());
        Square1 { pieces }
    }

    /// The configuration with the given pieces.
    pub fn from_arr(arr: [u8; 16]) -> (sq: Square1)
        ensures
            sq@ == arr@,
    {
        Square1 { pieces: arr }
    }

    /// The configuration whose pieces are the sixteen hexadecimal digits of
    /// `num`.
    pub fn from_num(num: u64) -> (sq: Square1)
        ensures
            sq@ == unpacked(num as nat, 16),
            forall|i: int| 0 <= i < 16 ==> #[trigger] sq@[i] < 16,
    {
        let mut arr: [u8; 16] = [0; 16];
        let mut rest: u64 = num;
        let mut i: usize = 0;
        while i < 16
            invariant
                i <= 16,
                unpacked(num as nat, 16) == unpacked(rest as nat, (16 - i) as nat) + arr@.subrange(
                    16 - i,
                    16,
                ),
            decreases 16 - i,
        {
            let ghost before = arr@;
            arr[15 - i] = (rest % 16) as u8;
            proof {
                let len = (16 - i) as nat;
                assert(unpacked(rest as nat, len) == unpacked(
                    (rest / 16) as nat,
                    (len - 1) as nat,
                ).push((rest % 16) as u8));
                assert(before.subrange(16 - i, 16) =~= arr@.subrange(16 - i, 16));
                assert(unpacked((rest / 16) as nat, (len - 1) as nat).push((rest % 16) as u8)
                    + before.subrange(16 - i, 16) =~= unpacked(
                    (rest / 16) as nat,
                    (len - 1) as nat,
                ) + arr@.subrange(15 - i, 16));
            }
            rest = rest / 16;
            i += 1;
        }
        proof {
            assert(unpacked(rest as nat, 0) + arr@.subrange(0, 16) =~= arr@);
            lemma_unpacked_digits(num as nat, 16);
        }
        Square1 { pieces: arr }
    }

    /// The number whose sixteen hexadecimal digits are the pieces.
    pub fn get_num(&self) -> (num: u64)
        requires
            forall|i: int| 0 <= i < 16 ==> #[trigger] self@[i] < 16,
        ensures
            num == packed(self@),
    {
        let mut num: u64 = 0;
        let mut i: usize = 0;
        while i < 16
            invariant
                i <= 16,
                forall|i: int| 0 <= i < 16 ==> #[trigger] self@[i] < 16,
                num == packed(self@.take(i as int)),
                num < pow16(i as nat),
            decreases 16 - i,
        {
            proof {
                lemma_pow16_monotone((i + 1) as nat, 16);
                lemma_pow16_16();
                assert(self@.take(i + 1).drop_last() =~= self@.take(i as int));
            }
            num = num * 16 + self.pieces[i] as u64;
            i += 1;
        }
        assert(self@.take(16) =~= self@);
        num
    }

    pub fn get_angle(&self, index: usize) -> (a: u8)
        requires
            index < 16,
        ensures
            a == angle(self@[index as int]),
    {
        2 - self.pieces[index] % 2
    }

    /// The number of pieces in the upper layer.
    pub fn get_divide(&self) -> (d: usize)
        ensures
            d == divide(self@),
            1 <= d <= 12,
            12 <= angle_sum(self@, 0, d as int) <= 13,
    {
        let mut angle: u8 = 0;
        let mut divide: usize = 0;
        while angle < 12
            invariant
                divide <= angle <= 13,
                angle == angle_sum(self@, 0, divide as int),
                forall|j: int| 0 <= j < divide ==> angle_sum(self@, 0, j) < 12,
            decreases 16 - divide,
        {
            angle += self.get_angle(divide);
            divide += 1;
        }
        proof {
            lemma_reach_is(self@, 0, 0, 12, divide as int);
            lemma_angle_sum_bounds(self@, 0, divide as int);
            lemma_angle_sum_bounds(self@, 0, divide - 1);
        }
        divide
    }

    /// Puts the pieces at the positions `from..to` in reverse order.
    fn reverse_pieces(&mut self, from: usize, to: usize)
        requires
            from <= to <= 16,
        ensures
            final(self)@ == reverse_range(old(self)@, from as int, to as int),
    {
        let before: [u8; 16] = self.pieces;
        let mut i: usize = from;
        while i < to
            invariant
                from <= i <= to <= 16,
                before@ == old(self)@,
                forall|j: int| from <= j < i ==> self.pieces@[j] == before@[from + to - 1 - j],
                forall|j: int| 0 <= j < from || i <= j < 16 ==> self.pieces@[j] == before@[j],
            decreases to - i,
        {
            self.pieces[i] = before[from + (to - 1 - i)];
            i += 1;
        }
        assert(self@ =~= reverse_range(old(self)@, from as int, to as int));
    }

    /// Rotates the pieces at the positions `from..to` to the left by `k`.
    fn rotate_pieces(&mut self, from: usize, to: usize, k: usize)
        requires
            from <= to <= 16,
            k <= to - from,
        ensures
            final(self)@ == old(self)@.subrange(0, from as int) + rotate_left(
                old(self)@.subrange(from as int, to as int),
                k as int,
            ) + old(self)@.subrange(to as int, 16),
    {
        let before: [u8; 16] = self.pieces;
        let len: usize = to - from;
        let mut i: usize = from;
        while i < to
            invariant
                from <= i <= to <= 16,
                len == to - from,
                k <= len,
                before@ == old(self)@,
                forall|j: int|
                    from <= j < i ==> self.pieces@[j] == before@[if j - from + k < len {
                        j + k
                    } else {
                        j + k - len
                    }],
                forall|j: int| 0 <= j < from || i <= j < 16 ==> self.pieces@[j] == before@[j],
            decreases to - i,
        {
            let shifted: usize = i - from + k;
            let source: usize = if shifted < len {
                from + shifted
            } else {
                from + (shifted - len)
            };
            self.pieces[i] = before[source];
            i += 1;
        }
        assert(self@ =~= old(self)@.subrange(0, from as int) + rotate_left(
            old(self)@.subrange(from as int, to as int),
            k as int,
        ) + old(self)@.subrange(to as int, 16));
    }

    /// The slice move: turns over the half of the puzzle behind the slice
    /// line. Fails, and changes nothing, where a piece lies across the line.
    pub fn turn_slice(&mut self) -> (res: Result<(), ()>)
        ensures
            res is Ok <==> sliceable(old(self)@),
            res is Ok ==> final(self)@ == slice_turned(old(self)@),
            res is Err ==> final(self)@ == old(self)@,
    {
        let mut angle: u8 = 0;
        let mut start: usize = 0;
        let mut end: usize = 16;
        while angle < 6
            invariant
                start <= angle <= 7,
                angle == angle_sum(self@, 0, start as int),
                forall|j: int| 0 <= j < start ==> angle_sum(self@, 0, j) < 6,
            decreases 16 - start,
        {
            angle += self.get_angle(start);
            start += 1;
        }
        proof {
            lemma_reach_is(self@, 0, 0, 6, start as int);
        }
        if angle > 6 {
            return Err(());
        }
        angle = 0;
        let ghost rev = self@.reverse();
        while angle < 6
            invariant
                rev == self@.reverse(),
                16 - end <= angle <= 7,
                end <= 16,
                angle == angle_sum(rev, 0, 16 - end),
                forall|j: int| 0 <= j < 16 - end ==> angle_sum(rev, 0, j) < 6,
            decreases end,
        {
            angle += self.get_angle(end - 1);
            end -= 1;
        }
        proof {
            lemma_reach_is(rev, 0, 0, 6, 16 - end);
        }
        if angle > 6 {
            return Err(());
        }
        self.reverse_pieces(start, end);
        Ok(())
    }

    /// Rotates the upper layer to the left by `turn.0` pieces and the lower
    /// layer by `turn.1` pieces.
    pub fn turn_layers(&mut self, turn: &(usize, usize))
        requires
            turn.0 <= divide(old(self)@),
            turn.1 <= 16 - divide(old(self)@),
        ensures
            final(self)@ == layers_turned(old(self)@, turn.0 as int, turn.1 as int),
    {
        let up: usize = turn.0;
        let down: usize = turn.1;
        if up != 0 || down != 0 {
            let divide: usize = self.get_divide();
            self.rotate_pieces(0, divide, up);
            self.rotate_pieces(divide, 16, down);
        }
        assert(self@ =~= layers_turned(old(self)@, turn.0 as int, turn.1 as int));
    }

    /// Renames the pieces as if the black layer's colours were turned back by
    /// `cycle.0` corners and the white layer's by `cycle.1`.
    pub fn cycle_colors(&mut self, cycle: &(u8, u8))
        requires
            cycle.0 <= 4,
            cycle.1 <= 4,
        ensures
            final(self)@ == colours_cycled(old(self)@, cycle.0 as int, cycle.1 as int),
    {
        let up: u8 = cycle.0;
        let down: u8 = cycle.1;
        if up != 0 || down != 0 {
            let mut i: usize = 0;
            while i < 16
                invariant
                    i <= 16,
                    up <= 4,
                    down <= 4,
                    forall|j: int|
                        0 <= j < i ==> self.pieces@[j] == cycled_piece(
                            old(self)@[j],
                            up as int,
                            down as int,
                        ),
                    forall|j: int| i <= j < 16 ==> self.pieces@[j] == old(self)@[j],
                decreases 16 - i,
            {
                if self.pieces[i] < 8 {
                    self.pieces[i] = (8 + self.pieces[i] - up * 2) % 8;
                } else {
                    self.pieces[i] = (self.pieces[i] - down * 2) % 8 + 8;
                }
                i += 1;
            }
        }
        assert(self@ =~= colours_cycled(old(self)@, cycle.0 as int, cycle.1 as int));
    }

    /// Exchanges black and white.
    pub fn flip_colors(&mut self)
        requires
            pieces_in_range(old(self)@),
        ensures
            final(self)@ == colours_flipped(old(self)@),
    {
        let mut i: usize = 0;
        while i < 16
            invariant
                i <= 16,
                forall|j: int| i <= j < 16 ==> #[trigger] self.pieces@[j] < 16,
                forall|j: int| 0 <= j < i ==> self.pieces@[j] == colour_flipped_piece(old(self)@[j]),
                forall|j: int| i <= j < 16 ==> self.pieces@[j] == old(self)@[j],
            decreases 16 - i,
        {
            if self.pieces[i] == 15 {
                self.pieces[i] = 7;
            } else {
                self.pieces[i] = 14 - self.pieces[i];
                if self.pieces[i] == 7 {
                    self.pieces[i] += 8;
                }
            }
            i += 1;
        }
        assert(self@ =~= colours_flipped(old(self)@));
    }

    /// Exchanges the two layers.
    pub fn flip_layers(&mut self)
        ensures
            final(self)@ == old(self)@.reverse(),
    {
        self.reverse_pieces(0, 16);
        assert(self@ =~= old(self)@.reverse());
    }

    /// Mirrors both layers, the layer boundary lying behind `divide` pieces.
    pub fn mirror_layers_atd(&mut self, divide: usize)
        requires
            divide <= 16,
            pieces_in_range(old(self)@),
        ensures
            final(self)@ == mirrored_at(old(self)@, divide as int),
    {
        self.reverse_pieces(0, divide);
        self.reverse_pieces(divide, 16);
        let ghost turned = self@;
        assert(turned =~= old(self)@.subrange(0, divide as int).reverse() + old(self)@.subrange(
            divide as int,
            16,
        ).reverse());
        let mut i: usize = 0;
        while i < 16
            invariant
                i <= 16,
                turned.len() == 16,
                forall|j: int| i <= j < 16 ==> #[trigger] self.pieces@[j] < 16,
                forall|j: int| 0 <= j < i ==> self.pieces@[j] == mirrored_piece(turned[j]),
                forall|j: int| i <= j < 16 ==> self.pieces@[j] == turned[j],
            decreases 16 - i,
        {
            if self.pieces[i] < 8 {
                self.pieces[i] = (self.pieces[i] + 4) % 8 + 8;
            } else {
                self.pieces[i] = (self.pieces[i] + 4) % 8;
            }
            i += 1;
        }
        assert(self@ =~= mirrored_at(old(self)@, divide as int));
    }

    /// Mirrors both layers.
    pub fn mirror_layers(&mut self)
        requires
            pieces_in_range(old(self)@),
        ensures
            final(self)@ == mirrored_at(old(self)@, divide(old(self)@)),
    {
        let divide: usize = self.get_divide();
        self.mirror_layers_atd(divide);
    }

    /// The pairs of opposite piece boundaries of the layer that begins at
    /// position `from`.
    fn layer_pairs(&self, from: usize) -> (pairs: Vec<(u8, usize, usize)>)
        requires
            from <= 16,
            angle_sum(self@, from as int, 16) >= 12,
        ensures
            pairs_view(pairs@) == layer_pairs(self@, from as int),
            0 <= layer_size(self@, from as int) <= 16 - from,
    {
        let mut angle: u8 = 0;
        let mut turn: usize = 0;
        let mut potential_angles: Vec<u8> = Vec::new();
        let mut pairs: Vec<(u8, usize, usize)> = Vec::new();
        assert(pairs_view(pairs@) =~= opposite_pairs(self@, from as int, 0));
        while angle < 6
            invariant
                from <= 16,
                angle_sum(self@, from as int, 16) >= 12,
                turn <= angle <= 7,
                from + turn <= 16,
                angle == angle_sum(self@, from as int, from + turn),
                potential_angles@.len() == turn,
                forall|j: int|
                    0 <= j < turn ==> #[trigger] potential_angles@[j] == angle_sum(
                        self@,
                        from as int,
                        from + j,
                    ) && potential_angles@[j] < 6,
                pairs@.len() == 0,
                forall|j: int| from <= j < from + turn ==> angle_sum(self@, from as int, j) < 12,
                pairs_view(pairs@) == opposite_pairs(self@, from as int, turn as int),
            decreases 16 - turn,
        {
            potential_angles.push(angle);
            angle += self.get_angle(from + turn);
            turn += 1;
            proof {
                if from + turn == 16 {
                    assert(angle >= 12);
                }
            }
        }
        let ghost half: int = turn as int;
        while angle < 12
            invariant
                from <= 16,
                angle_sum(self@, from as int, 16) >= 12,
                6 <= angle <= 13,
                turn <= angle,
                from + turn <= 16,
                angle == angle_sum(self@, from as int, from + turn),
                potential_angles@.len() == half,
                half <= turn,
                angle_sum(self@, from as int, from + half) >= 6,
                forall|j: int|
                    0 <= j < half ==> #[trigger] potential_angles@[j] == angle_sum(
                        self@,
                        from as int,
                        from + j,
                    ) && potential_angles@[j] < 6,
                forall|j: int| from <= j < from + turn ==> angle_sum(self@, from as int, j) < 12,
                pairs_view(pairs@) == opposite_pairs(self@, from as int, turn as int),
            decreases 16 - turn,
        {
            let potential_angle: u8 = angle - 6;
            let mut index: usize = 0;
            let mut found: bool = false;
            while index < potential_angles.len() && !found
                invariant
                    index <= potential_angles@.len(),
                    found ==> index < potential_angles@.len() && potential_angles@[index as int]
                        == potential_angle,
                    forall|j: int|
                        0 <= j < index ==> #[trigger] potential_angles@[j] != potential_angle,
                decreases potential_angles@.len() - index + if found {
                    0int
                } else {
                    1int
                },
            {
                if potential_angles[index] == potential_angle {
                    found = true;
                } else {
                    index += 1;
                }
            }
            proof {
                let s = self@;
                let f = from as int;
                let target = potential_angle as int;
                let first = reach(s, f, f, target) - f;
                if found {
                    lemma_reach_exact(s, f, target, f + index);
                } else {
                    lemma_reach(s, f, f, target);
                    if angle_sum(s, f, f + first) == target {
                        if first >= half {
                            lemma_angle_sum_split(s, f, f + half, f + first);
                            lemma_angle_sum_bounds(s, f + half, f + first);
                        }
                        assert(potential_angles@[first] == target);
                    }
                }
            }
            let ghost before = pairs@;
            if found {
                pairs.push((potential_angle, index, turn));
                assert(pairs_view(pairs@) =~= pairs_view(before).push(
                    (potential_angle as int, index as int, turn as int),
                ));
            }
            angle += self.get_angle(from + turn);
            turn += 1;
            proof {
                if from + turn == 16 && angle < 12 {
                    assert(false);
                }
            }
        }
        proof {
            lemma_reach_is(self@, from as int, from as int, 12, from + turn);
        }
        pairs
    }

    /// The turns that the pairs of opposite boundaries of the two layers
    /// give.
    fn turns_of_pairs(
        ups: &Vec<(u8, usize, usize)>,
        downs: &Vec<(u8, usize, usize)>,
        all: bool,
    ) -> (turns: Vec<(usize, usize)>)
        requires
            forall|i: int| 0 <= i < ups@.len() ==> (#[trigger] ups@[i]).0 < 6,
            forall|i: int| 0 <= i < downs@.len() ==> (#[trigger] downs@[i]).0 < 6,
        ensures
            turns_view(turns@) == turns_of(
                pairs_view(ups@),
                pairs_view(downs@),
                downs@.len() as int,
                all,
            ),
    {
        let mut turns: Vec<(usize, usize)> = Vec::new();
        let ghost su = pairs_view(ups@);
        let ghost sd = pairs_view(downs@);
        let mut m: usize = 0;
        assert(turns_view(turns@) =~= turns_of(su, sd, 0, all));
        while m < downs.len()
            invariant
                m <= downs@.len(),
                su == pairs_view(ups@),
                sd == pairs_view(downs@),
                forall|i: int| 0 <= i < ups@.len() ==> (#[trigger] ups@[i]).0 < 6,
                forall|i: int| 0 <= i < downs@.len() ==> (#[trigger] downs@[i]).0 < 6,
                turns_view(turns@) == turns_of(su, sd, m as int, all),
            decreases downs@.len() - m,
        {
            let down: (u8, usize, usize) = downs[m];
            let ghost outer = turns_view(turns@);
            let mut n: usize = 0;
            assert(outer + turns_with(su, sd[m as int], 0, all) =~= outer);
            while n < ups.len()
                invariant
                    n <= ups@.len(),
                    m < downs@.len(),
                    su == pairs_view(ups@),
                    sd == pairs_view(downs@),
                    down == downs@[m as int],
                    down.0 < 6,
                    forall|i: int| 0 <= i < ups@.len() ==> (#[trigger] ups@[i]).0 < 6,
                    turns_view(turns@) == outer + turns_with(su, sd[m as int], n as int, all),
                decreases ups@.len() - n,
            {
                let up: (u8, usize, usize) = ups[n];
                let ghost inner = turns_view(turns@);
                assert(su[n as int] == (up.0 as int, up.1 as int, up.2 as int));
                assert(sd[m as int] == (down.0 as int, down.1 as int, down.2 as int));
                if all {
                    turns.push((up.1, down.1));
                    turns.push((up.2, down.2));
                    turns.push((up.1, down.2));
                    turns.push((up.2, down.1));
                } else {
                    if up.0 + down.0 < 7 {
                        turns.push((up.1, down.1));
                    } else {
                        turns.push((up.2, down.2));
                    }
                    if up.0 < down.0 {
                        turns.push((up.1, down.2));
                    } else {
                        turns.push((up.2, down.1));
                    }
                }
                assert(turns_view(turns@) =~= inner + pair_turns(su[n as int], sd[m as int], all));
                assert(outer + turns_with(su, sd[m as int], n as int, all) + pair_turns(
                    su[n as int],
                    sd[m as int],
                    all,
                ) =~= outer + turns_with(su, sd[m as int], n + 1, all));
                n += 1;
            }
            m += 1;
        }
        turns
    }

    /// The layer turns after which the slice move is possible: all of them,
    /// or one of each two that differ by a half turn of the whole puzzle.
    fn get_slice_turns(&self, all: bool) -> (turns: Vec<(usize, usize)>)
        requires
            well_formed(self@),
        ensures
            turns_view(turns@) == slice_turns(self@, all),
            forall|i: int|
                0 <= i < turns@.len() ==> turn_allows_slice(
                    self@,
                    (#[trigger] turns@[i]).0 as int,
                    turns@[i].1 as int,
                ),
    {
        proof {
            lemma_layers(self@);
            lemma_angle_sum_bounds(self@, 0, divide(self@));
            lemma_angle_sum_split(self@, 0, divide(self@), 16);
        }
        let ups = self.layer_pairs(0);
        let divide: usize = self.get_divide();
        let downs = self.layer_pairs(divide);
        proof {
            lemma_opposite_pairs(self@, 0, layer_size(self@, 0));
            lemma_opposite_pairs(self@, divide as int, layer_size(self@, divide as int));
            assert forall|i: int| 0 <= i < ups@.len() implies (#[trigger] ups@[i]).0 < 6 by {
                assert(pairs_view(ups@)[i].0 == ups@[i].0);
            }
            assert forall|i: int| 0 <= i < downs@.len() implies (#[trigger] downs@[i]).0 < 6 by {
                assert(pairs_view(downs@)[i].0 == downs@[i].0);
            }
        }
        let turns = Self::turns_of_pairs(&ups, &downs, all);
        proof {
            lemma_turns_keep_sliceable(self@, all);
            assert forall|i: int| 0 <= i < turns@.len() implies turn_allows_slice(
                self@,
                (#[trigger] turns@[i]).0 as int,
                turns@[i].1 as int,
            ) by {
                assert(slice_turns(self@, all)[i] == (turns@[i].0 as int, turns@[i].1 as int));
            }
        }
        turns
    }

    /// The layer turns after which the slice move is possible, one of each
    /// two that differ by a half turn of the whole puzzle.
    pub fn get_unique_turns(&self) -> (turns: Vec<(usize, usize)>)
        requires
            well_formed(self@),
        ensures
            turns_view(turns@) == unique_turns(self@),
            turns_view(turns@).no_duplicates(),
            forall|i: int|
                0 <= i < turns@.len() ==> turn_allows_slice(
                    self@,
                    (#[trigger] turns@[i]).0 as int,
                    turns@[i].1 as int,
                ),
    {
        proof {
            crate::turns::lemma_turns_distinct(self@, false);
        }
        self.get_slice_turns(false)
    }

    /// All layer turns after which the slice move is possible.
    pub fn get_all_turns(&self) -> (turns: Vec<(usize, usize)>)
        requires
            well_formed(self@),
        ensures
            turns_view(turns@) == all_turns(self@),
            turns_view(turns@).no_duplicates(),
            forall|i: int|
                0 <= i < turns@.len() ==> turn_allows_slice(
                    self@,
                    (#[trigger] turns@[i]).0 as int,
                    turns@[i].1 as int,
                ),
    {
        proof {
            crate::turns::lemma_turns_distinct(self@, true);
        }
        self.get_slice_turns(true)
    }

    /// The unique turns of a configuration of two squares.
    pub fn get_unique_turns_sqsq(&self) -> (turns: [(usize, usize); 16])
        ensures
            turns@ == unique_turns_sqsq(self@),
    {
        if self.pieces[0] % 2 != self.pieces[15] % 2 {
            SQSQ_UNIQUE_TURNS_BA
        } else if self.pieces[0] % 2 == 0 {
            SQSQ_UNIQUE_TURNS_UA
        } else {
            SQSQ_UNIQUE_TURNS_DA
        }
    }

    /// All turns of a configuration of two squares.
    pub fn get_all_turns_sqsq(&self) -> (turns: [(usize, usize); 32])
        ensures
            turns@ == all_turns_sqsq(self@),
    {
        if self.pieces[0] % 2 != self.pieces[15] % 2 {
            SQSQ_ALL_TURNS_A
        } else {
            SQSQ_ALL_TURNS_M
        }
    }

    /// The angular width of the pieces at the positions `from..to`.
    fn angle_between(&self, from: usize, to: usize) -> (a: u8)
        requires
            from <= to <= 16,
        ensures
            a == angle_sum(self@, from as int, to as int),
    {
        let mut angle: u8 = 0;
        let mut i: usize = from;
        while i < to
            invariant
                from <= i <= to <= 16,
                angle == angle_sum(self@, from as int, i as int),
                angle <= 2 * (i - from),
            decreases to - i,
        {
            angle += self.get_angle(i);
            i += 1;
        }
        angle
    }

    /// The turn by `turn.0` and `turn.1` pieces in angular units, each
    /// between minus five and six.
    pub fn get_human_readable(&self, turn: (usize, usize)) -> (readable: (i8, i8))
        requires
            turn.0 <= divide(self@),
            turn.1 <= 16 - divide(self@),
        ensures
            (readable.0 as int, readable.1 as int) == human_readable(
                self@,
                turn.0 as int,
                turn.1 as int,
            ),
            -5 <= readable.0 <= 6,
            -5 <= readable.1 <= 6,
    {
        let divide: usize = self.get_divide();
        let up: u8 = self.angle_between(0, turn.0) % 12;
        let down: u8 = self.angle_between(divide, divide + turn.1) % 12;
        (
            if up > 6 {
                up as i8 - 12
            } else {
                up as i8
            },
            if down > 6 {
                down as i8 - 12
            } else {
                down as i8
            },
        )
    }

    /// Whether all sixteen pieces are present, each once.
    fn is_permutation(&self) -> (r: bool)
        ensures
            r == is_permutation(self@),
    {
        let mut seen: [bool; 16] = [false; 16];
        let mut cleared: usize = 0;
        while cleared < 16
            invariant
                cleared <= 16,
                forall|v: int| 0 <= v < cleared ==> !(#[trigger] seen@[v]),
            decreases 16 - cleared,
        {
            seen[cleared] = false;
            cleared += 1;
        }
        let mut i: usize = 0;
        while i < 16
            invariant
                i <= 16,
                forall|j: int| 0 <= j < i ==> #[trigger] self.pieces@[j] < 16,
                forall|j: int, k: int| 0 <= j < k < i ==> self.pieces@[j] != self.pieces@[k],
                forall|v: int|
                    0 <= v < 16 ==> (#[trigger] seen@[v] <==> exists|j: int|
                        0 <= j < i && self.pieces@[j] == v),
            decreases 16 - i,
        {
            let piece: u8 = self.pieces[i];
            if piece >= 16 {
                return false;
            }
            if seen[piece as usize] {
                proof {
                    let j = choose|j: int| 0 <= j < i && self.pieces@[j] == piece;
                    assert(self@[j] == self@[i as int]);
                }
                return false;
            }
            let ghost before = seen@;
            seen[piece as usize] = true;
            proof {
                assert forall|v: int| 0 <= v < 16 implies (#[trigger] seen@[v] <==> exists|j: int|
                    0 <= j < i + 1 && self.pieces@[j] == v) by {
                    if v == piece {
                        assert(self.pieces@[i as int] == v);
                    } else if before[v] {
                        let j = choose|j: int| 0 <= j < i && self.pieces@[j] == v;
                        assert(0 <= j < i + 1 && self.pieces@[j] == v);
                    } else {
                        if exists|j: int| 0 <= j < i + 1 && self.pieces@[j] == v {
                            let j = choose|j: int| 0 <= j < i + 1 && self.pieces@[j] == v;
                            assert(j < i);
                        }
                    }
                }
            }
            i += 1;
        }
        true
    }

    /// Whether all pieces are there and form two layers.
    pub fn is_well_formed(&self) -> (r: bool)
        ensures
            r == well_formed(self@),
    {
        if !self.is_permutation() {
            return false;
        }
        let divide: usize = self.get_divide();
        self.angle_between(0, divide) == 12
    }

    /// Whether both layers are squares.
    pub fn is_square_shaped(&self) -> (r: bool)
        ensures
            r == square_shaped(self@),
    {
        let mut i: usize = 0;
        while i < 7
            invariant
                i <= 7,
                forall|j: int| 0 <= j < i ==> (#[trigger] self.pieces@[j]) % 2 != self.pieces@[j + 1] % 2,
                forall|j: int|
                    8 <= j < 8 + i ==> (#[trigger] self.pieces@[j]) % 2 != self.pieces@[j + 1] % 2,
            decreases 7 - i,
        {
            if self.pieces[i] % 2 == self.pieces[i + 1] % 2 {
                return false;
            }
            if self.pieces[8 + i] % 2 == self.pieces[9 + i] % 2 {
                return false;
            }
            i += 1;
        }
        true
    }

    /// Whether the solver accepts the configuration: all pieces are there,
    /// they form two layers, and both layers lie on the slice line.
    pub fn is_valid(&self) -> (r: bool)
        ensures
            r == valid(self@),
    {
        if !self.is_permutation() {
            return false;
        }
        let divide: usize = self.get_divide();
        if self.angle_between(0, divide) != 12 {
            return false;
        }
        let mut turned: Square1 = *self;
        turned.turn_slice().is_ok()
    }

    /// A scrambled configuration: from the solved one, for each of the
    /// given numbers one of the unique turns, chosen by the number, and the
    /// slice move.
    pub fn scrambled(choices: &Vec<usize>) -> (sq: Square1)
        ensures
            sq@ == scrambled_by(choices@, choices@.len() as int),
            valid(sq@),
    {
        let mut sq: Square1 = Square1::solved();
        proof {
            lemma_solved();
        }
        let mut i: usize = 0;
        while i < choices.len()
            invariant
                i <= choices@.len(),
                valid(sq@),
                sq@ == scrambled_by(choices@, i as int),
            decreases choices@.len() - i,
        {
            let turns: Vec<(usize, usize)> = sq.get_unique_turns();
            if turns.len() > 0 {
                let turn: (usize, usize) = turns[choices[i] % turns.len()];
                proof {
                    assert(unique_turns(sq@)[(choices@[i as int] as int) % (turns@.len() as int)] == (
                        turn.0 as int,
                        turn.1 as int,
                    ));
                    lemma_turn_well_formed(sq@, turn.0 as int, turn.1 as int);
                    lemma_slice_well_formed(layers_turned(sq@, turn.0 as int, turn.1 as int));
                }
                sq.turn_layers(&turn);
                let sliced = sq.turn_slice();
                assert(sliced is Ok);
            }
            i += 1;
        }
        sq
    }
}

} // verus!
