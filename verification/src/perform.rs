//! What a sequence of turns does to a configuration, and that the inverse
//! sequence undoes it.
use vstd::prelude::*;
use crate::solver::{inverse_of, negatable, Solution};
use crate::square1::{
    angle_sum, divide, layers_turned, lemma_angle_sum_bounds, lemma_angle_sum_shift,
    lemma_angle_sum_split, lemma_layers, lemma_layers_turned_pieces, lemma_reach_exact,
    lemma_reach_is, lemma_slice_well_formed, lemma_solved, lemma_turn_back,
    lemma_turn_well_formed, reach, slice_turned, sliceable, solved_pieces, valid, well_formed,
    Square1,
};

verus! {

/// The number of pieces from position `from` on that span `angle` units, a
/// full circle counting for nothing; none where the angle ends within a
/// piece.
pub open spec fn pieces_for(s: Seq<u8>, from: int, angle: int) -> Option<int> {
    let k = reach(s, from, from, angle % 12) - from;
    if angle_sum(s, from, from + k) == angle % 12 {
        Some(k)
    } else {
        None
    }
}

/// The configuration after a turn in angular units; none where the turn
/// ends within a piece.
pub open spec fn turned_by(s: Seq<u8>, turn: (i8, i8)) -> Option<Seq<u8>> {
    match (pieces_for(s, 0, turn.0 as int), pieces_for(s, divide(s), turn.1 as int)) {
        (Some(up), Some(down)) => Some(layers_turned(s, up, down)),
        _ => None,
    }
}

/// The configuration after the slice move; none where a piece lies across
/// the slice line.
pub open spec fn sliced(s: Seq<u8>) -> Option<Seq<u8>> {
    if sliceable(s) {
        Some(slice_turned(s))
    } else {
        None
    }
}

/// The configuration after the slice move and a turn.
pub open spec fn stepped(s: Seq<u8>, turn: (i8, i8)) -> Option<Seq<u8>> {
    match sliced(s) {
        Some(after) => turned_by(after, turn),
        None => None,
    }
}

/// The configuration after the given turns, the slice move before each.
pub open spec fn steps_after(s: Seq<u8>, moves: Seq<(i8, i8)>) -> Option<Seq<u8>>
    decreases moves.len(),
{
    if moves.len() == 0 {
        Some(s)
    } else {
        match steps_after(s, moves.drop_last()) {
            Some(before) => stepped(before, moves.last()),
            None => None,
        }
    }
}

/// The configuration after a sequence of turns, the slice move between each
/// two; none where a move cannot be made.
pub open spec fn performed(s: Seq<u8>, moves: Seq<(i8, i8)>) -> Option<Seq<u8>> {
    if moves.len() == 0 {
        Some(s)
    } else {
        match turned_by(s, moves[0]) {
            Some(first) => steps_after(first, moves.skip(1)),
            None => None,
        }
    }
}

/// The opposite of a turn.
pub open spec fn opposite(turn: (i8, i8)) -> (i8, i8) {
    ((-turn.0) as i8, (-turn.1) as i8)
}

/// The pieces of a layer that a turn passes: where a layer of twelve units
/// begins at `from` and holds `n` pieces, a turn by `k` pieces is undone by
/// the turn by the angle the other way, which passes the other `n - k`
/// pieces; a turn of nothing by a turn of nothing.
pub proof fn lemma_pieces_back(s: Seq<u8>, t: Seq<u8>, from: int, n: int, angle: int)
    requires
        0 <= from,
        1 <= n,
        from + n <= s.len(),
        s.len() == t.len(),
        angle_sum(s, from, from + n) == 12,
        pieces_for(s, from, angle) is Some,
        0 <= pieces_for(s, from, angle)->0 <= n,
        forall|j: int|
            from <= j < from + n - pieces_for(s, from, angle)->0 ==> #[trigger] t[j] == s[j
                + pieces_for(s, from, angle)->0],
        forall|j: int|
            from + n - pieces_for(s, from, angle)->0 <= j < from + n ==> #[trigger] t[j] == s[j - (n
                - pieces_for(s, from, angle)->0)],
    ensures
        pieces_for(t, from, -angle) == Some(
            if pieces_for(s, from, angle)->0 == 0 {
                0
            } else {
                n - pieces_for(s, from, angle)->0
            },
        ),
{
    let k = pieces_for(s, from, angle)->0;
    let a = angle % 12;
    assert((-angle) % 12 == if a == 0 {
        0
    } else {
        12 - a
    });
    assert(angle_sum(t, from, from) == 0);
    if k == 0 {
        assert(a == 0);
        lemma_reach_exact(t, from, 0, from);
    } else {
        lemma_angle_sum_bounds(s, from, from + k);
        lemma_angle_sum_split(s, from, from + k, from + n);
        lemma_angle_sum_shift(t, s, from, from + n - k, k);
        lemma_reach_exact(t, from, 12 - a, from + n - k);
    }
}

/// A turn in angular units keeps a configuration well formed, and the
/// opposite turn undoes it.
pub proof fn lemma_turned_back(s: Seq<u8>, turn: (i8, i8))
    requires
        well_formed(s),
        turn.0 > -128,
        turn.1 > -128,
        turned_by(s, turn) is Some,
    ensures
        well_formed(turned_by(s, turn)->0),
        turned_by(turned_by(s, turn)->0, opposite(turn)) == Some(s),
{
    let d = divide(s);
    lemma_layers(s);
    let up = pieces_for(s, 0, turn.0 as int)->0;
    let down = pieces_for(s, d, turn.1 as int)->0;
    crate::square1::lemma_reach(s, 0, 0, (turn.0 as int) % 12);
    crate::square1::lemma_reach(s, d, d, (turn.1 as int) % 12);
    if up > d {
        lemma_angle_sum_split(s, 0, d, up);
        lemma_angle_sum_bounds(s, d, up);
    }
    lemma_angle_sum_bounds(s, d, d + down);
    let t = layers_turned(s, up, down);
    lemma_turn_well_formed(s, up, down);
    lemma_layers_turned_pieces(s, up, down);
    lemma_pieces_back(s, t, 0, d, turn.0 as int);
    lemma_pieces_back(s, t, d, 16 - d, turn.1 as int);
    let back_up = if up == 0 {
        0
    } else {
        d - up
    };
    let back_down = if down == 0 {
        0
    } else {
        16 - d - down
    };
    lemma_turn_back(s, up, down);
    assert(layers_turned(t, back_up, back_down) =~= layers_turned(t, d - up, 16 - d - down)) by {
        lemma_layers_turned_pieces(t, back_up, back_down);
        lemma_layers_turned_pieces(t, d - up, 16 - d - down);
    }
}

/// The slice move and a turn keep a configuration well formed, and the
/// opposite turn and the slice move undo them.
pub proof fn lemma_stepped_back(s: Seq<u8>, turn: (i8, i8))
    requires
        well_formed(s),
        turn.0 > -128,
        turn.1 > -128,
        stepped(s, turn) is Some,
    ensures
        well_formed(stepped(s, turn)->0),
        turned_by(stepped(s, turn)->0, opposite(turn)) == sliced(s),
        sliced(sliced(s)->0) == Some(s),
        well_formed(sliced(s)->0),
{
    lemma_slice_well_formed(s);
    lemma_turned_back(slice_turned(s), turn);
}

/// The turns of a sequence, the slice move before each, taken from the
/// first turn on.
pub proof fn lemma_steps_after_first(s: Seq<u8>, moves: Seq<(i8, i8)>)
    requires
        moves.len() >= 1,
    ensures
        steps_after(s, moves) == match stepped(s, moves[0]) {
            Some(first) => steps_after(first, moves.skip(1)),
            None => None,
        },
    decreases moves.len(),
{
    if moves.len() == 1 {
        assert(moves.drop_last().len() == 0);
        assert(moves.skip(1).len() == 0);
        assert(moves.last() == moves[0]);
    } else {
        let init = moves.drop_last();
        lemma_steps_after_first(s, init);
        assert(init[0] == moves[0]);
        assert(init.skip(1) =~= moves.skip(1).drop_last());
        assert(moves.skip(1).last() == moves.last());
    }
}

/// The inverse of a sequence of turns, taken from its first turn on.
pub proof fn lemma_inverse_first(moves: Seq<(i8, i8)>)
    requires
        moves.len() >= 1,
    ensures
        inverse_of(moves)[0] == opposite(moves.last()),
        inverse_of(moves).skip(1) == inverse_of(moves.drop_last()),
        negatable(moves) ==> negatable(moves.drop_last()),
{
    assert(inverse_of(moves).skip(1) =~= inverse_of(moves.drop_last()));
    if negatable(moves) {
        let init = moves.drop_last();
        assert forall|i: int| 0 <= i < init.len() implies (#[trigger] init[i]).0 > -128
            && init[i].1 > -128 by {
            assert(init[i] == moves[i]);
        }
    }
}

/// The inverse turns, the slice move before each, undo the turns that led
/// from a configuration on, the slice move before each.
pub proof fn lemma_steps_undone(s: Seq<u8>, moves: Seq<(i8, i8)>)
    requires
        well_formed(s),
        negatable(moves),
        steps_after(s, moves) is Some,
    ensures
        moves.len() >= 1 ==> performed(steps_after(s, moves)->0, inverse_of(moves)) == sliced(s),
        moves.len() == 0 ==> performed(steps_after(s, moves)->0, inverse_of(moves)) == Some(s),
    decreases moves.len(),
{
    if moves.len() > 0 {
        let init = moves.drop_last();
        let last = moves.last();
        lemma_inverse_first(moves);
        lemma_steps_well_formed(s, init);
        let before = steps_after(s, init)->0;
        let end = stepped(before, last)->0;
        assert(last == moves[moves.len() - 1]);
        lemma_stepped_back(before, last);
        // the first inverse turn leads back behind the last slice move
        let undone = inverse_of(moves);
        assert(turned_by(end, undone[0]) == sliced(before));
        lemma_steps_undone(s, init);
        if init.len() == 0 {
            assert(undone.skip(1).len() == 0);
            assert(before == s);
        } else {
            let rest = inverse_of(init);
            lemma_steps_after_first(sliced(before)->0, rest);
            assert(stepped(sliced(before)->0, rest[0]) == turned_by(before, rest[0]));
        }
    } else {
        assert(inverse_of(moves).len() == 0);
    }
}

/// The inverse of a sequence of turns is the inverse of all but its first
/// turn, and then the opposite of the first turn.
pub proof fn lemma_inverse_last(moves: Seq<(i8, i8)>)
    requires
        moves.len() >= 1,
    ensures
        inverse_of(moves) == inverse_of(moves.skip(1)).push(opposite(moves[0])),
        negatable(moves) ==> negatable(moves.skip(1)),
{
    let rest = moves.skip(1);
    let a = inverse_of(moves);
    let b = inverse_of(rest).push(opposite(moves[0]));
    assert(a.len() == b.len());
    assert forall|i: int| 0 <= i < a.len() implies a[i] == b[i] by {
        if i < rest.len() {
            assert(rest[rest.len() - 1 - i] == moves[moves.len() - 1 - i]);
        }
    }
    assert(a =~= b);
    if negatable(moves) {
        assert forall|i: int| 0 <= i < rest.len() implies (#[trigger] rest[i]).0 > -128
            && rest[i].1 > -128 by {
            assert(rest[i] == moves[i + 1]);
        }
    }
}

/// The inverse of a sequence of turns undoes it: where the sequence leads
/// from a well-formed configuration to another, the inverse sequence leads
/// back.
pub proof fn lemma_performed_undone(s: Seq<u8>, moves: Seq<(i8, i8)>)
    requires
        well_formed(s),
        negatable(moves),
        performed(s, moves) is Some,
    ensures
        performed(performed(s, moves)->0, inverse_of(moves)) == Some(s),
{
    if moves.len() > 0 {
        let first = turned_by(s, moves[0])->0;
        let rest = moves.skip(1);
        let back = opposite(moves[0]);
        let end = steps_after(first, rest)->0;
        let undone_rest = inverse_of(rest);
        lemma_inverse_last(moves);
        assert(well_formed(first) && turned_by(first, back) == Some(s)) by {
            lemma_turned_back(s, moves[0]);
        }
        lemma_steps_undone(first, rest);
        lemma_performed_push(end, undone_rest, back);
        if rest.len() == 0 {
            assert(undone_rest.len() == 0);
            assert(end == first);
        } else {
            assert(undone_rest.len() > 0);
            assert(sliced(first) is Some) by {
                lemma_steps_after_first(first, rest);
            }
            assert(sliced(sliced(first)->0) == Some(first)) by {
                lemma_slice_well_formed(first);
            }
            assert(stepped(sliced(first)->0, back) == Some(s));
        }
    } else {
        assert(inverse_of(moves).len() == 0);
    }
}

/// A sequence with one turn more leads where the sequence leads, and on by
/// the slice move and the turn; a single turn leads where the turn leads.
pub proof fn lemma_performed_push(s: Seq<u8>, moves: Seq<(i8, i8)>, turn: (i8, i8))
    ensures
        performed(s, moves.push(turn)) == if moves.len() == 0 {
            turned_by(s, turn)
        } else {
            match performed(s, moves) {
                Some(before) => stepped(before, turn),
                None => None,
            }
        },
{
    let all = moves.push(turn);
    if moves.len() == 0 {
        assert(all[0] == turn);
        assert(all.skip(1).len() == 0);
    } else {
        assert(all[0] == moves[0]);
        assert(all.skip(1).drop_last() =~= moves.skip(1));
        assert(all.skip(1).last() == turn);
    }
}

impl Square1 {
    /// The number of pieces from position `from` on that span `angle` units,
    /// a full circle counting for nothing; none where the angle ends within
    /// a piece.
    fn pieces_for(&self, from: usize, angle: i8) -> (count: Option<usize>)
        requires
            from <= 16,
            angle_sum(self@, from as int, 16) >= 12,
        ensures
            match count {
                Some(k) => pieces_for(self@, from as int, angle as int) == Some(k as int) && from
                    + k <= 16 && angle_sum(self@, from as int, from + k) < 12,
                None => pieces_for(self@, from as int, angle as int) is None,
            },
    {
        let target: u8 = (((angle as i16) % 12 + 12) % 12) as u8;
        assert(target == (angle as int) % 12);
        let mut reached: u8 = 0;
        let mut count: usize = 0;
        while reached < target
            invariant
                from <= 16,
                target < 12,
                angle_sum(self@, from as int, 16) >= 12,
                count <= reached <= 12,
                from + count <= 16,
                reached == angle_sum(self@, from as int, from + count),
                forall|j: int|
                    from <= j < from + count ==> angle_sum(self@, from as int, j) < target,
            decreases 16 - count,
        {
            reached += self.get_angle(from + count);
            count += 1;
            proof {
                if from + count == 16 && reached < target {
                    assert(false);
                }
            }
        }
        proof {
            lemma_reach_is(self@, from as int, from as int, target as int, from + count);
        }
        if reached == target {
            Some(count)
        } else {
            None
        }
    }

    /// Turns the layers by the given angular units; fails, and changes
    /// nothing, where a turn ends within a piece.
    pub fn turn_by(&mut self, turn: (i8, i8)) -> (res: Result<(), ()>)
        requires
            well_formed(old(self)@),
        ensures
            match res {
                Ok(_) => turned_by(old(self)@, turn) == Some(final(self)@) && well_formed(
                    final(self)@,
                ),
                Err(_) => turned_by(old(self)@, turn) is None && final(self)@ == old(self)@,
            },
    {
        proof {
            lemma_layers(self@);
            lemma_angle_sum_split(self@, 0, divide(self@), 16);
        }
        let divide: usize = self.get_divide();
        let up: usize = match self.pieces_for(0, turn.0) {
            Some(count) => count,
            None => {
                return Err(());
            },
        };
        let down: usize = match self.pieces_for(divide, turn.1) {
            Some(count) => count,
            None => {
                return Err(());
            },
        };
        proof {
            if up > divide {
                lemma_angle_sum_split(self@, 0, divide as int, up as int);
                lemma_angle_sum_bounds(self@, divide as int, up as int);
            }
            lemma_turn_well_formed(self@, up as int, down as int);
        }
        self.turn_layers(&(up, down));
        Ok(())
    }
}

impl Solution {
    /// Makes the turns of the solution on a configuration, the slice move
    /// between each two. Fails where a move cannot be made; the
    /// configuration is then what the moves before it left.
    pub fn perform(&self, square1: &mut Square1) -> (res: Result<(), ()>)
        requires
            well_formed(old(square1)@),
        ensures
            res is Ok <==> performed(old(square1)@, self.notation@) is Some,
            res is Ok ==> performed(old(square1)@, self.notation@) == Some(final(square1)@),
            well_formed(final(square1)@),
    {
        let ghost start = square1@;
        let ghost moves = self.notation@;
        let mut i: usize = 0;
        while i < self.notation.len()
            invariant
                i <= self.notation@.len(),
                moves == self.notation@,
                start == old(square1)@,
                well_formed(start),
                well_formed(square1@),
                performed(start, moves.take(i as int)) == Some(square1@),
            decreases self.notation@.len() - i,
        {
            let ghost before = square1@;
            proof {
                lemma_performed_push(start, moves.take(i as int), moves[i as int]);
                assert(moves.take(i as int).push(moves[i as int]) =~= moves.take(i + 1));
                assert(moves.take(i as int).len() == i);
            }
            if i > 0 {
                if square1.turn_slice().is_err() {
                    proof {
                        assert(sliced(before) is None);
                        assert(performed(start, moves.take(i + 1)) is None);
                        lemma_performed_prefix(start, moves, i + 1);
                    }
                    return Err(());
                }
                proof {
                    lemma_slice_well_formed(before);
                }
            }
            let ghost middle = square1@;
            if square1.turn_by(self.notation[i]).is_err() {
                proof {
                    assert(turned_by(middle, moves[i as int]) is None);
                    assert(performed(start, moves.take(i + 1)) is None);
                    lemma_performed_prefix(start, moves, i + 1);
                }
                return Err(());
            }
            i += 1;
        }
        assert(moves.take(moves.len() as int) =~= moves);
        Ok(())
    }
}

/// Where the first turns of a sequence cannot be made, the sequence cannot
/// be made.
pub proof fn lemma_performed_prefix(s: Seq<u8>, moves: Seq<(i8, i8)>, n: int)
    requires
        0 <= n <= moves.len(),
        performed(s, moves.take(n)) is None,
    ensures
        performed(s, moves) is None,
    decreases moves.len() - n,
{
    if n < moves.len() {
        lemma_performed_push(s, moves.take(n), moves[n]);
        assert(moves.take(n).push(moves[n]) =~= moves.take(n + 1));
        if n == 0 {
            assert(moves.take(0).len() == 0);
        }
        lemma_performed_prefix(s, moves, n + 1);
    } else {
        assert(moves.take(n) =~= moves);
    }
}

/// A turn in angular units keeps a configuration well formed.
pub proof fn lemma_turned_well_formed(s: Seq<u8>, turn: (i8, i8))
    requires
        well_formed(s),
        turned_by(s, turn) is Some,
    ensures
        well_formed(turned_by(s, turn)->0),
{
    let d = divide(s);
    lemma_layers(s);
    let up = pieces_for(s, 0, turn.0 as int)->0;
    let down = pieces_for(s, d, turn.1 as int)->0;
    crate::square1::lemma_reach(s, 0, 0, (turn.0 as int) % 12);
    crate::square1::lemma_reach(s, d, d, (turn.1 as int) % 12);
    if up > d {
        lemma_angle_sum_split(s, 0, d, up);
        lemma_angle_sum_bounds(s, d, up);
    }
    lemma_angle_sum_bounds(s, d, d + down);
    lemma_turn_well_formed(s, up, down);
}

/// The slice move and the turns behind it keep a configuration well formed.
pub proof fn lemma_steps_well_formed(s: Seq<u8>, moves: Seq<(i8, i8)>)
    requires
        well_formed(s),
        steps_after(s, moves) is Some,
    ensures
        well_formed(steps_after(s, moves)->0),
    decreases moves.len(),
{
    if moves.len() > 0 {
        let before = steps_after(s, moves.drop_last())->0;
        lemma_steps_well_formed(s, moves.drop_last());
        lemma_slice_well_formed(before);
        lemma_turned_well_formed(sliced(before)->0, moves.last());
    }
}

/// Every configuration that turns and slice moves make of the solved one is
/// well formed, and valid where the slice move can follow it: what can be
/// reached is taken by the solver.
pub proof fn lemma_reached_valid(moves: Seq<(i8, i8)>)
    requires
        performed(solved_pieces(), moves) is Some,
    ensures
        well_formed(performed(solved_pieces(), moves)->0),
        sliceable(performed(solved_pieces(), moves)->0) ==> valid(
            performed(solved_pieces(), moves)->0,
        ),
{
    lemma_solved();
    if moves.len() > 0 {
        lemma_turned_well_formed(solved_pieces(), moves[0]);
        lemma_steps_well_formed(turned_by(solved_pieces(), moves[0])->0, moves.skip(1));
    }
}

} // verus!
