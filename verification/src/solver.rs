//! The search for a sequence of moves that solves a configuration: the tree
//! of the moves that the slice-count table allows, the choice of the path of
//! least cost through it, and the sequence as text.
use vstd::prelude::*;
use crate::square1::{
    divide, human_readable, layers_turned, lemma_slice_well_formed, lemma_turn_well_formed,
    slice_turned, slice_turns, turn_allows_slice, turns_view, valid, well_formed, Square1,
};
use crate::state::stateall::{index_all, lemma_size_all, StateAll};
use crate::state::State;
use crate::table::{entry, SliceCountTable};

verus! {

/// The slice-count table of the full indexing, loaded once and read by every
/// search.
pub struct TableHandle {
    pub table: Vec<u8>,
}

impl TableHandle {
    /// The table holds an entry for every index.
    pub open spec fn wf(&self) -> bool {
        self.table@.len() == (3_302_208_000usize + 1) / 2
    }
}

/// Takes the bytes of the table of the full indexing, if they are as many as
/// the table has.
pub fn load_table(bytes: Vec<u8>) -> (handle: Option<TableHandle>)
    ensures
        handle is Some <==> bytes@.len() == (3_302_208_000usize + 1) / 2,
        handle matches Some(h) ==> h.table@ == bytes@ && h.wf(),
{
    proof {
        lemma_size_all();
    }
    if bytes.len() == (StateAll::SIZE + 1) / 2 {
        Some(TableHandle { table: bytes })
    } else {
        None
    }
}

/// The number of slice moves that the table holds for a configuration.
pub fn get_slice_count(square1: Square1, table: &TableHandle) -> (count: u8)
    requires
        well_formed(square1@),
        table.wf(),
    ensures
        count == entry(table.table@, index_all(square1@)),
        count <= 15,
{
    let index: usize = StateAll::new(square1).get_index();
    SliceCountTable::<StateAll>::read(&table.table, index)
}

/// Each part of a turn lies between minus six and six.
pub open spec fn in_range(readable: (i8, i8)) -> bool {
    -6 <= readable.0 <= 6 && -6 <= readable.1 <= 6
}

/// The turn with its parts exchanged: the same turn on a puzzle that stands
/// on its head.
pub open spec fn onhead(readable: (i8, i8)) -> (i8, i8) {
    (readable.1, readable.0)
}

/// A part of a turn with a half turn added.
pub open spec fn swapped_part(x: int) -> int {
    if (x + 6) % 12 > 6 {
        (x + 6) % 12 - 12
    } else {
        (x + 6) % 12
    }
}

/// The turn with a half turn added to both parts: it leaves the puzzle in
/// the same state, turned over.
pub open spec fn swapped(readable: (i8, i8)) -> (i8, i8) {
    (swapped_part(readable.0 as int) as i8, swapped_part(readable.1 as int) as i8)
}

/// The size of a number.
pub open spec fn magnitude(x: int) -> int {
    if x < 0 {
        -x
    } else {
        x
    }
}

/// The cost of a turn: the greater of its parts.
pub open spec fn length(readable: (i8, i8)) -> int {
    if magnitude(readable.0 as int) >= magnitude(readable.1 as int) {
        magnitude(readable.0 as int)
    } else {
        magnitude(readable.1 as int)
    }
}

/// The cost of a turn with a half turn added to both parts.
pub open spec fn length_swap(readable: (i8, i8)) -> int {
    6 - if magnitude(readable.0 as int) <= magnitude(readable.1 as int) {
        magnitude(readable.0 as int)
    } else {
        magnitude(readable.1 as int)
    }
}

/// The turn with its parts exchanged.
pub fn get_onhead(readable: (i8, i8)) -> (turn: (i8, i8))
    ensures
        turn == onhead(readable),
{
    (readable.1, readable.0)
}

/// A turn as a layer can be asked to make it: each part from minus six to
/// eleven.
pub open spec fn turnable(readable: (i8, i8)) -> bool {
    -6 <= readable.0 <= 11 && -6 <= readable.1 <= 11
}

/// The turn with a half turn added to both parts: each part is six more, up
/// to whole turns, and lies between minus five and six.
pub fn get_swap(readable: (i8, i8)) -> (turn: (i8, i8))
    requires
        turnable(readable),
    ensures
        turn == swapped(readable),
        -5 <= turn.0 <= 6,
        -5 <= turn.1 <= 6,
        (turn.0 - readable.0 - 6) % 12 == 0,
        (turn.1 - readable.1 - 6) % 12 == 0,
{
    let mut up: i8 = (readable.0 + 6) % 12;
    let mut down: i8 = (readable.1 + 6) % 12;
    if up > 6 {
        up -= 12;
    }
    if down > 6 {
        down -= 12;
    }
    (up, down)
}

/// The size of a part of a turn.
fn part_size(x: i8) -> (size: u8)
    requires
        x > -128,
    ensures
        size == magnitude(x as int),
{
    if x < 0 {
        (-x) as u8
    } else {
        x as u8
    }
}

/// The cost of a turn: the greater of its parts.
pub fn get_length(readable: (i8, i8)) -> (cost: u8)
    requires
        readable.0 > -128,
        readable.1 > -128,
    ensures
        cost == length(readable),
        in_range(readable) ==> cost <= 6,
{
    let up: u8 = part_size(readable.0);
    let down: u8 = part_size(readable.1);
    if up >= down {
        up
    } else {
        down
    }
}

/// The cost of a turn with a half turn added to both parts.
pub fn get_length_swap(readable: (i8, i8)) -> (cost: u8)
    requires
        readable.0 > -128,
        readable.1 > -128,
        length_swap(readable) >= 0,
    ensures
        cost == length_swap(readable),
        cost <= 6,
{
    let up: u8 = part_size(readable.0);
    let down: u8 = part_size(readable.1);
    6 - if up <= down {
        up
    } else {
        down
    }
}

/// The turn with a half turn added costs what `length_swap` says, and stays
/// in range; on its head a turn costs the same.
pub proof fn lemma_swap_cost(readable: (i8, i8))
    requires
        in_range(readable),
    ensures
        in_range(swapped(readable)),
        in_range(onhead(readable)),
        length(swapped(readable)) == length_swap(readable),
        length(onhead(readable)) == length(readable),
        length_swap(onhead(readable)) == length_swap(readable),
{
    lemma_swapped_part(readable.0 as int);
    lemma_swapped_part(readable.1 as int);
}

pub proof fn lemma_swapped_part(x: int)
    requires
        -6 <= x <= 6,
    ensures
        -5 <= swapped_part(x) <= 6,
        magnitude(swapped_part(x)) == 6 - magnitude(x),
{
    if x == 6 {
        assert((x + 6) % 12 == 0);
    } else {
        assert((x + 6) % 12 == x + 6);
    }
}

/// A step of the search as a value: the turn that leads to it, the number of
/// slice moves that are left, and the steps that can follow.
pub struct StepView {
    pub readable: (i8, i8),
    pub kids: Seq<StepView>,
    pub slices: int,
}

/// A step of the search: the turn that leads to it, the steps that can
/// follow, and the number of slice moves that are left; zero before the last
/// turn, minus one behind it.
pub struct Step {
    pub readable: (i8, i8),
    pub next_steps: Vec<Step>,
    pub slices: i8,
}

/// The first `k` of the given steps as values.
pub open spec fn kids_view(kids: Seq<Step>, k: int) -> Seq<StepView>
    decreases kids, k,
{
    if k <= 0 || k > kids.len() {
        Seq::empty()
    } else {
        kids_view(kids, k - 1).push(kids[k - 1].view())
    }
}

impl View for Step {
    type V = StepView;

    open spec fn view(&self) -> StepView
        decreases self,
    {
        StepView {
            readable: self.readable,
            kids: kids_view(self.next_steps@, self.next_steps@.len() as int),
            slices: self.slices as int,
        }
    }
}

/// The last turn can be made: the first piece is black, and the turns that
/// bring the first black and the first white piece to the front fit into the
/// layers.
pub open spec fn aligns(s: Seq<u8>) -> bool {
    s[0] < 8 && s[8] <= 16 && 8 - s[0] <= divide(s) && s[8] >= divide(s)
}

/// The turn in angular units, as a pair of small numbers.
pub open spec fn readable_of(s: Seq<u8>, turn: (int, int)) -> (i8, i8) {
    (human_readable(s, turn.0, turn.1).0 as i8, human_readable(s, turn.0, turn.1).1 as i8)
}

/// The tree of the steps that lead from a configuration to the end, with
/// `slices` slice moves left: a turn and the slice move follow where the
/// table holds less than `slices` for the configuration that they lead to;
/// before the last slice move only where the last turn can then be made.
pub open spec fn step_tree(readable: (i8, i8), s: Seq<u8>, slices: int, table: Seq<u8>) -> StepView
    decreases slices + 1, 1int, 0int,
{
    StepView {
        readable,
        slices,
        kids: if slices > 0 {
            let turns = slice_turns(s, slices <= 1);
            kids_tree(s, turns, slices, table, turns.len() as int)
        } else if slices == 0 && aligns(s) {
            let turn = (8 - s[0], 16 - s[8]);
            seq![
                step_tree(readable_of(s, turn), layers_turned(s, turn.0, turn.1), -1, table),
            ]
        } else {
            Seq::empty()
        },
    }
}

/// The steps that the first `n` of the given turns lead to.
pub open spec fn kids_tree(
    s: Seq<u8>,
    turns: Seq<(int, int)>,
    slices: int,
    table: Seq<u8>,
    n: int,
) -> Seq<StepView>
    decreases slices + 1, 0int, n,
{
    if n <= 0 || slices <= 0 {
        Seq::empty()
    } else {
        let rest = kids_tree(s, turns, slices, table, n - 1);
        let turn = turns[n - 1];
        let adj = slice_turned(layers_turned(s, turn.0, turn.1));
        if entry(table, index_all(adj)) < slices && (slices == 1 ==> aligns(adj)) {
            rest.push(step_tree(readable_of(s, turn), adj, slices - 1, table))
        } else {
            rest
        }
    }
}

/// The steps below have one slice move less each, down to the end, and
/// every turn is in range.
pub open spec fn tree_ok(step: StepView) -> bool
    decreases step,
{
    &&& -1 <= step.slices <= 20
    &&& in_range(step.readable)
    &&& step.slices == -1 ==> step.kids.len() == 0
    &&& step.slices >= 0 ==> forall|i: int|
        0 <= i < step.kids.len() ==> (#[trigger] step.kids[i]).slices == step.slices - 1
            && tree_ok(step.kids[i])
}

/// The best path below a step: whether a swap is still owed at the odd and
/// at the even depths, the cost, and the turns from the end back to the
/// step. `pot_odd` and `pot_even` are the least costs at which a step above,
/// at an odd or an even depth, can take a swap.
pub open spec fn best_raw(step: StepView, pot_odd: int, pot_even: int) -> (
    bool,
    bool,
    int,
    Seq<(i8, i8)>,
)
    decreases step, 0int,
{
    let len = length(step.readable);
    let len_swap = length_swap(step.readable);
    if step.slices <= -1 {
        if pot_odd + len_swap < len {
            (true, false, len_swap, seq![swapped(step.readable)])
        } else {
            (false, false, len, seq![step.readable])
        }
    } else if step.slices == 0 {
        if step.kids.len() == 0 {
            (false, false, 85, Seq::empty())
        } else {
            let below = best_raw(step.kids[0], pot_odd, pot_even);
            let new_readable = if below.0 {
                onhead(step.readable)
            } else {
                step.readable
            };
            if pot_even + length_swap(new_readable) < length(new_readable) {
                (below.0, true, below.2 + length_swap(new_readable), below.3.push(
                    swapped(new_readable),
                ))
            } else {
                (below.0, false, below.2 + length(new_readable), below.3.push(new_readable))
            }
        }
    } else {
        let new_swap = len_swap - len;
        let odd = step.slices % 2 == 1;
        let swap_is_better = new_swap <= if odd {
            pot_odd
        } else {
            pot_even
        };
        let next_odd = if odd && swap_is_better {
            new_swap
        } else {
            pot_odd
        };
        let next_even = if !odd && swap_is_better {
            new_swap
        } else {
            pot_even
        };
        match best_kid(step.kids, next_odd, next_even, step.kids.len() as int) {
            Some(best) => {
                if odd {
                    let new_readable = if best.1 {
                        onhead(step.readable)
                    } else {
                        step.readable
                    };
                    if best.0 && swap_is_better {
                        (false, best.1, best.2 + len_swap, best.3.push(swapped(new_readable)))
                    } else {
                        (best.0, best.1, best.2 + len, best.3.push(new_readable))
                    }
                } else {
                    let new_readable = if best.0 {
                        onhead(step.readable)
                    } else {
                        step.readable
                    };
                    if best.1 && swap_is_better {
                        (best.0, false, best.2 + len_swap, best.3.push(swapped(new_readable)))
                    } else {
                        (best.0, best.1, best.2 + len, best.3.push(new_readable))
                    }
                }
            },
            None => (false, false, 85, Seq::empty()),
        }
    }
}

/// The best path below the first `n` of the given steps: the first of least
/// cost.
pub open spec fn best_kid(kids: Seq<StepView>, pot_odd: int, pot_even: int, n: int) -> Option<
    (bool, bool, int, Seq<(i8, i8)>),
>
    decreases kids, n,
{
    if n <= 0 || n > kids.len() {
        None
    } else {
        let rest = best_kid(kids, pot_odd, pot_even, n - 1);
        let here = best_raw(kids[n - 1], pot_odd, pot_even);
        match rest {
            Some(best) => if best.2 <= here.2 {
                rest
            } else {
                Some(here)
            },
            None => Some(here),
        }
    }
}

/// The turns of a path: from the first turn to the last, the step that the
/// search began at taken off.
pub open spec fn path_of(raw: Seq<(i8, i8)>) -> Seq<(i8, i8)> {
    if raw.len() == 0 {
        raw
    } else {
        raw.drop_last().reverse()
    }
}

/// The number of slice moves that the search allows itself: what the table
/// holds, adjusted so that the bar ends up solved.
pub open spec fn target_slices(count: int, bar_solved: bool, first: u8) -> int {
    if (count % 2 == 0) == bar_solved {
        if count == 0 && first > 7 {
            2
        } else {
            count
        }
    } else if count == 0 {
        3
    } else {
        count + 1
    }
}

/// The turns that solve a configuration.
pub open spec fn solution_of(s: Seq<u8>, bar_solved: bool, table: Seq<u8>) -> Seq<(i8, i8)> {
    let slices = target_slices(entry(table, index_all(s)), bar_solved, s[0]);
    path_of(best_raw(step_tree((0, 0), s, slices, table), 6, 6).3)
}

/// The values of a list of steps do not depend on what follows in the list.
pub proof fn lemma_kids_view_prefix(kids: Seq<Step>, step: Step, k: int)
    requires
        0 <= k <= kids.len(),
    ensures
        kids_view(kids.push(step), k) == kids_view(kids, k),
    decreases k,
{
    if k > 0 {
        lemma_kids_view_prefix(kids, step, k - 1);
        assert(kids.push(step)[k - 1] == kids[k - 1]);
    }
}

/// The values of a list of steps with one step more.
pub proof fn lemma_kids_view_push(kids: Seq<Step>, step: Step)
    ensures
        kids_view(kids.push(step), kids.len() as int + 1) == kids_view(kids, kids.len() as int).push(
            step.view(),
        ),
{
    lemma_kids_view_prefix(kids, step, kids.len() as int);
    assert(kids.push(step)[kids.len() as int] == step);
}

/// What the values of a list of steps are.
pub proof fn lemma_kids_view(kids: Seq<Step>, k: int)
    requires
        0 <= k <= kids.len(),
    ensures
        kids_view(kids, k).len() == k,
        forall|i: int| 0 <= i < k ==> #[trigger] kids_view(kids, k)[i] == kids[i].view(),
    decreases k,
{
    if k > 0 {
        lemma_kids_view(kids, k - 1);
        assert(kids_view(kids, k) == kids_view(kids, k - 1).push(kids[k - 1].view()));
    } else {
        assert(kids_view(kids, 0) == Seq::<StepView>::empty());
    }
}

/// The cost of a best path is at most six for each step of the path, and
/// eighty-five more where the search came to a dead end.
pub proof fn lemma_best_raw_bound(step: StepView, pot_odd: int, pot_even: int)
    requires
        tree_ok(step),
    ensures
        0 <= best_raw(step, pot_odd, pot_even).2 <= 85 + 6 * (step.slices + 2),
    decreases step, 1int,
{
    lemma_swap_cost(step.readable);
    if step.slices <= -1 {
    } else if step.slices == 0 {
        if step.kids.len() > 0 {
            lemma_best_raw_bound(step.kids[0], pot_odd, pot_even);
            let below = best_raw(step.kids[0], pot_odd, pot_even);
            lemma_swap_cost(onhead(step.readable));
        }
    } else {
        let new_swap = length_swap(step.readable) - length(step.readable);
        let odd = step.slices % 2 == 1;
        let swap_is_better = new_swap <= if odd {
            pot_odd
        } else {
            pot_even
        };
        let next_odd = if odd && swap_is_better {
            new_swap
        } else {
            pot_odd
        };
        let next_even = if !odd && swap_is_better {
            new_swap
        } else {
            pot_even
        };
        lemma_best_kid_bound(step, next_odd, next_even, step.kids.len() as int);
        lemma_swap_cost(onhead(step.readable));
    }
}

/// The cost of the best path below the steps that follow a step.
pub proof fn lemma_best_kid_bound(step: StepView, pot_odd: int, pot_even: int, n: int)
    requires
        tree_ok(step),
        step.slices >= 0,
        0 <= n <= step.kids.len(),
    ensures
        best_kid(step.kids, pot_odd, pot_even, n) matches Some(best) ==> 0 <= best.2 <= 85 + 6 * (
        step.slices + 1),
    decreases step, 0int, n,
{
    if n > 0 {
        lemma_best_kid_bound(step, pot_odd, pot_even, n - 1);
        assert(tree_ok(step.kids[n - 1]) && step.kids[n - 1].slices == step.slices - 1);
        lemma_best_raw_bound(step.kids[n - 1], pot_odd, pot_even);
    }
}

impl Step {
    /// The tree of the steps that lead from a configuration to the end, with
    /// `slices` slice moves left.
    pub fn new(readable: (i8, i8), square1: Square1, slices: i8, table: &TableHandle) -> (step:
        Self)
        requires
            in_range(readable),
            -1 <= slices <= 16,
            table.wf(),
            slices > 0 ==> well_formed(square1@),
        ensures
            step@ == step_tree(readable, square1@, slices as int, table.table@),
            tree_ok(step@),
            step.slices == slices,
        decreases slices + 1,
    {
        let ghost s = square1@;
        let ghost tab = table.table@;
        let mut next_steps: Vec<Step> = Vec::new();
        if slices > 0 {
            let turns: Vec<(usize, usize)> = if slices > 1 {
                square1.get_unique_turns()
            } else {
                square1.get_all_turns()
            };
            let ghost all = turns_view(turns@);
            let mut i: usize = 0;
            assert(kids_view(next_steps@, 0) =~= kids_tree(s, all, slices as int, tab, 0));
            while i < turns.len()
                invariant
                    i <= turns@.len(),
                    s == square1@,
                    tab == table.table@,
                    table.wf(),
                    well_formed(s),
                    1 <= slices <= 16,
                    all == turns_view(turns@),
                    all == slice_turns(s, slices <= 1),
                    forall|j: int|
                        0 <= j < turns@.len() ==> turn_allows_slice(
                            s,
                            (#[trigger] turns@[j]).0 as int,
                            turns@[j].1 as int,
                        ),
                    kids_view(next_steps@, next_steps@.len() as int) == kids_tree(
                        s,
                        all,
                        slices as int,
                        tab,
                        i as int,
                    ),
                    forall|j: int|
                        0 <= j < next_steps@.len() ==> (#[trigger] next_steps@[j]).slices == slices
                            - 1 && tree_ok(next_steps@[j]@),
                decreases turns@.len() - i,
            {
                let turn: (usize, usize) = turns[i];
                let mut adj: Square1 = square1;
                proof {
                    assert(turn_allows_slice(s, turns@[i as int].0 as int, turns@[i as int].1 as int));
                    assert(all[i as int] == (turn.0 as int, turn.1 as int));
                    lemma_turn_well_formed(s, turn.0 as int, turn.1 as int);
                    lemma_slice_well_formed(layers_turned(s, turn.0 as int, turn.1 as int));
                }
                adj.turn_layers(&turn);
                let sliced = adj.turn_slice();
                assert(sliced is Ok);
                if get_slice_count(adj, table) < slices as u8 {
                    let next_step: Step = Self::new(
                        square1.get_human_readable(turn),
                        adj,
                        slices - 1,
                        table,
                    );
                    proof {
                        lemma_kids_view(next_step.next_steps@, next_step.next_steps@.len() as int);
                    }
                    let keep: bool = if slices == 1 {
                        !next_step.next_steps.is_empty()
                    } else {
                        true
                    };
                    if keep {
                        proof {
                            lemma_kids_view_push(next_steps@, next_step);
                        }
                        next_steps.push(next_step);
                    }
                }
                i += 1;
            }
        } else if slices == 0 {
            let divide: usize = square1.get_divide();
            let first: u8 = square1.pieces[0];
            let second: u8 = square1.pieces[8];
            if first < 8 && second <= 16 && 8 - first as usize <= divide && second as usize
                >= divide {
                let abf_turn: (usize, usize) = (8 - first as usize, 16 - second as usize);
                let mut adj: Square1 = square1;
                adj.turn_layers(&abf_turn);
                let last: Step = Self::new(square1.get_human_readable(abf_turn), adj, -1, table);
                proof {
                    lemma_kids_view_push(next_steps@, last);
                    assert(kids_view(Seq::<Step>::empty(), 0) =~= Seq::<StepView>::empty());
                }
                next_steps.push(last);
                assert(kids_view(next_steps@, 1) =~= seq![last@]);
            } else {
                assert(kids_view(next_steps@, 0) =~= Seq::<StepView>::empty());
            }
        } else {
            assert(kids_view(next_steps@, 0) =~= Seq::<StepView>::empty());
        }
        proof {
            lemma_kids_view(next_steps@, next_steps@.len() as int);
        }
        Self { readable, next_steps, slices }
    }

    /// The best path below the step, the step's own turn at its end: whether
    /// a swap is still owed at the odd and at the even depths, the cost, and
    /// the turns from the end back to the step.
    pub fn get_best_path_raw(&self, pot_swap_odd: i16, pot_swap_even: i16) -> (best: (
        bool,
        bool,
        u8,
        Vec<(i8, i8)>,
    ))
        requires
            tree_ok(self@),
            -6 <= pot_swap_odd <= 6,
            -6 <= pot_swap_even <= 6,
        ensures
            (best.0, best.1, best.2 as int, best.3@) == best_raw(
                self@,
                pot_swap_odd as int,
                pot_swap_even as int,
            ),
        decreases self,
    {
        proof {
            lemma_best_raw_bound(self@, pot_swap_odd as int, pot_swap_even as int);
            lemma_kids_view(self.next_steps@, self.next_steps@.len() as int);
            lemma_swap_cost(self.readable);
            lemma_swap_cost(onhead(self.readable));
        }
        let length: u8 = get_length(self.readable);
        let length_swap: u8 = get_length_swap(self.readable);
        if self.slices == -1 {
            if pot_swap_odd + (length_swap as i16) < length as i16 {
                let mut path: Vec<(i8, i8)> = Vec::new();
                path.push(get_swap(self.readable));
                (true, false, length_swap, path)
            } else {
                let mut path: Vec<(i8, i8)> = Vec::new();
                path.push(self.readable);
                (false, false, length, path)
            }
        } else if self.slices == 0 {
            if self.next_steps.len() == 0 {
                return (false, false, 85, Vec::new());
            }
            assert(self@.kids[0] == self.next_steps@[0]@);
            proof {
                lemma_best_raw_bound(self@.kids[0], pot_swap_odd as int, pot_swap_even as int);
            }
            let below = self.next_steps[0].get_best_path_raw(pot_swap_odd, pot_swap_even);
            let swap_odd: bool = below.0;
            let total_length: u8 = below.2;
            let mut path: Vec<(i8, i8)> = below.3;
            let new_readable: (i8, i8) = if swap_odd {
                get_onhead(self.readable)
            } else {
                self.readable
            };
            let length: u8 = get_length(new_readable);
            let length_swap: u8 = get_length_swap(new_readable);
            if pot_swap_even + (length_swap as i16) < length as i16 {
                path.push(get_swap(new_readable));
                (swap_odd, true, total_length + length_swap, path)
            } else {
                path.push(new_readable);
                (swap_odd, false, total_length + length, path)
            }
        } else {
            let new_swap: i16 = length_swap as i16 - length as i16;
            let mut swap_is_better: bool = false;
            let odd: bool = self.slices % 2 == 1;
            let mut pot_odd: i16 = pot_swap_odd;
            let mut pot_even: i16 = pot_swap_even;
            if odd {
                if new_swap <= pot_odd {
                    swap_is_better = true;
                    pot_odd = new_swap;
                }
            } else {
                if new_swap <= pot_even {
                    swap_is_better = true;
                    pot_even = new_swap;
                }
            }
            let mut best: Option<(bool, bool, u8, Vec<(i8, i8)>)> = None;
            let mut i: usize = 0;
            while i < self.next_steps.len()
                invariant
                    i <= self.next_steps@.len(),
                    tree_ok(self@),
                    self.slices >= 1,
                    self@.kids.len() == self.next_steps@.len(),
                    forall|j: int|
                        0 <= j < self.next_steps@.len() ==> #[trigger] self@.kids[j]
                            == self.next_steps@[j]@,
                    -6 <= pot_odd <= 6,
                    -6 <= pot_even <= 6,
                    match best {
                        Some(b) => best_kid(self@.kids, pot_odd as int, pot_even as int, i as int)
                            == Some((b.0, b.1, b.2 as int, b.3@)),
                        None => best_kid(self@.kids, pot_odd as int, pot_even as int, i as int)
                            is None,
                    },
                decreases self.next_steps@.len() - i,
            {
                assert(self@.kids[i as int] == self.next_steps@[i as int]@);
                assert(tree_ok(self@.kids[i as int]));
                let here = self.next_steps[i].get_best_path_raw(pot_odd, pot_even);
                let better: bool = match &best {
                    Some(b) => here.2 < b.2,
                    None => true,
                };
                if better {
                    best = Some(here);
                }
                i += 1;
            }
            proof {
                lemma_best_kid_bound(
                    self@,
                    pot_odd as int,
                    pot_even as int,
                    self@.kids.len() as int,
                );
            }
            match best {
                Some(found) => {
                    let best_swap_odd: bool = found.0;
                    let best_swap_even: bool = found.1;
                    let best_total_length: u8 = found.2;
                    let mut best_path: Vec<(i8, i8)> = found.3;
                    if odd {
                        let new_readable: (i8, i8) = if best_swap_even {
                            get_onhead(self.readable)
                        } else {
                            self.readable
                        };
                        if best_swap_odd && swap_is_better {
                            best_path.push(get_swap(new_readable));
                            (false, best_swap_even, best_total_length + length_swap, best_path)
                        } else {
                            best_path.push(new_readable);
                            (best_swap_odd, best_swap_even, best_total_length + length, best_path)
                        }
                    } else {
                        let new_readable: (i8, i8) = if best_swap_odd {
                            get_onhead(self.readable)
                        } else {
                            self.readable
                        };
                        if best_swap_even && swap_is_better {
                            best_path.push(get_swap(new_readable));
                            (best_swap_odd, false, best_total_length + length_swap, best_path)
                        } else {
                            best_path.push(new_readable);
                            (best_swap_odd, best_swap_even, best_total_length + length, best_path)
                        }
                    }
                },
                None => (false, false, 85, Vec::new()),
            }
        }
    }

    /// The turns of the best path, from the first to the last.
    pub fn get_best_path(&self) -> (path: Vec<(i8, i8)>)
        requires
            tree_ok(self@),
        ensures
            path@ == path_of(best_raw(self@, 6, 6).3),
    {
        let best = self.get_best_path_raw(6, 6);
        let mut raw: Vec<(i8, i8)> = best.3;
        let ghost all = raw@;
        raw.pop();
        let mut path: Vec<(i8, i8)> = Vec::new();
        let mut i: usize = raw.len();
        while i > 0
            invariant
                i <= raw@.len(),
                path@.len() == raw@.len() - i,
                forall|j: int| 0 <= j < path@.len() ==> path@[j] == raw@[raw@.len() - 1 - j],
            decreases i,
        {
            i -= 1;
            path.push(raw[i]);
        }
        assert(path@ =~= path_of(all));
        path
    }
}

/// A sequence of turns, with the slice move between each two.
pub struct Solution {
    pub notation: Vec<(i8, i8)>,
}

/// The sequence that undoes the given one: its turns backwards, each the
/// other way.
pub open spec fn inverse_of(notation: Seq<(i8, i8)>) -> Seq<(i8, i8)> {
    Seq::new(
        notation.len(),
        |i: int| ((-notation[notation.len() - 1 - i].0) as i8, (-notation[notation.len() - 1 - i].1) as i8),
    )
}

/// No part of a turn is the least number that its type holds, which has no
/// opposite.
pub open spec fn negatable(notation: Seq<(i8, i8)>) -> bool {
    forall|i: int| 0 <= i < notation.len() ==> (#[trigger] notation[i]).0 > -128 && notation[i].1 > -128
}

/// Undoing twice gives the sequence back.
pub proof fn lemma_inverse_twice(notation: Seq<(i8, i8)>)
    requires
        negatable(notation),
    ensures
        negatable(inverse_of(notation)),
        inverse_of(inverse_of(notation)) == notation,
{
    let once = inverse_of(notation);
    assert forall|i: int| 0 <= i < once.len() implies (#[trigger] once[i]).0 > -128 && once[i].1
        > -128 by {
        assert(notation[notation.len() - 1 - i].0 > -128);
    }
    assert forall|i: int| 0 <= i < notation.len() implies inverse_of(once)[i] == notation[i] by {
        assert(once[once.len() - 1 - i].0 == -notation[i].0);
        assert(notation[i].0 > -128);
    }
    assert(inverse_of(once) =~= notation);
}

impl Solution {
    /// The sequence that undoes this one.
    pub fn inverse(&self) -> (undo: Self)
        requires
            negatable(self.notation@),
        ensures
            undo.notation@ == inverse_of(self.notation@),
    {
        let mut notation: Vec<(i8, i8)> = Vec::new();
        let mut i: usize = self.notation.len();
        while i > 0
            invariant
                i <= self.notation@.len(),
                negatable(self.notation@),
                notation@.len() == self.notation@.len() - i,
                forall|j: int|
                    0 <= j < notation@.len() ==> #[trigger] notation@[j] == (
                        (-self.notation@[self.notation@.len() - 1 - j].0) as i8,
                        (-self.notation@[self.notation@.len() - 1 - j].1) as i8,
                    ),
            decreases i,
        {
            i -= 1;
            let turn: (i8, i8) = self.notation[i];
            assert(self.notation@[i as int].0 > -128 && self.notation@[i as int].1 > -128);
            notation.push((-turn.0, -turn.1));
        }
        assert(notation@ =~= inverse_of(self.notation@));
        Self { notation }
    }
}

/// Solves a configuration: gives the turns that lead to the solved state,
/// or fails if the configuration is not valid.
pub fn solve(square1: Square1, bar_solved: bool, table: &TableHandle) -> (res: Result<
    Solution,
    (),
>)
    requires
        table.wf(),
    ensures
        res is Err <==> !valid(square1@),
        res matches Ok(solution) ==> solution.notation@ == solution_of(
            square1@,
            bar_solved,
            table.table@,
        ),
        res matches Ok(solution) ==> solution.notation@.len() <= entry(
            table.table@,
            index_all(square1@),
        ) + 4,
        res matches Ok(solution) ==> forall|i: int|
            0 <= i < solution.notation@.len() ==> in_range(#[trigger] solution.notation@[i]),
{
    if !square1.is_valid() {
        Err(())
    } else {
        let mut slices: u8 = get_slice_count(square1, table);
        if (slices % 2 == 0) == bar_solved {
            if slices == 0 && square1.pieces[0] > 7 {
                slices = 2;
            }
        } else if slices == 0 {
            slices = 3;
        } else {
            slices += 1;
        }
        let origin: Step = Step::new((0, 0), square1, slices as i8, table);
        let notation: Vec<(i8, i8)> = origin.get_best_path();
        proof {
            lemma_best_raw_sound(origin@, 6, 6);
            let raw = best_raw(origin@, 6, 6).3;
            assert forall|i: int| 0 <= i < notation@.len() implies in_range(
                #[trigger] notation@[i],
            ) by {
                assert(notation@[i] == raw[raw.len() - 2 - i]);
            }
        }
        Ok(Solution { notation })
    }
}

/// The cost of the turns of a path.
pub open spec fn path_cost(path: Seq<(i8, i8)>) -> int
    decreases path.len(),
{
    if path.len() == 0 {
        0
    } else {
        path_cost(path.drop_last()) + length(path.last())
    }
}

/// A best path is sound: every turn of it is in range, it is as long as the
/// steps down to the end unless the search came to a dead end, and its cost
/// is the cost of its turns, with eighty-five added at a dead end.
pub open spec fn sound(step: StepView, best: (bool, bool, int, Seq<(i8, i8)>)) -> bool {
    &&& forall|i: int| 0 <= i < best.3.len() ==> in_range(#[trigger] best.3[i])
    &&& best.3.len() <= step.slices + 2
    &&& best.2 == path_cost(best.3) + if best.3.len() == step.slices + 2 {
        0int
    } else {
        85int
    }
}

/// The cost of a path with one turn more.
pub proof fn lemma_path_cost_push(path: Seq<(i8, i8)>, turn: (i8, i8))
    ensures
        path_cost(path.push(turn)) == path_cost(path) + length(turn),
{
    assert(path.push(turn).drop_last() =~= path);
}

/// A sound path below a step stays sound with the turn of the step, as it
/// is or swapped, at its end.
pub proof fn lemma_sound_push(
    step: StepView,
    kid: StepView,
    below: (bool, bool, int, Seq<(i8, i8)>),
    turn: (i8, i8),
    flags: (bool, bool),
)
    requires
        kid.slices == step.slices - 1,
        sound(kid, below),
        in_range(turn),
    ensures
        sound(step, (flags.0, flags.1, below.2 + length(turn), below.3.push(turn))),
{
    lemma_path_cost_push(below.3, turn);
    let path = below.3.push(turn);
    assert forall|i: int| 0 <= i < path.len() implies in_range(#[trigger] path[i]) by {
        if i < below.3.len() {
            assert(path[i] == below.3[i]);
        }
    }
}

/// The best path below the steps that follow a step is the best path below
/// one of them.
pub proof fn lemma_best_kid_is(kids: Seq<StepView>, pot_odd: int, pot_even: int, n: int)
    requires
        0 <= n <= kids.len(),
    ensures
        best_kid(kids, pot_odd, pot_even, n) matches Some(best) ==> exists|j: int|
            0 <= j < n && best == best_raw(#[trigger] kids[j], pot_odd, pot_even),
        n > 0 ==> best_kid(kids, pot_odd, pot_even, n) is Some,
    decreases n,
{
    if n > 0 {
        lemma_best_kid_is(kids, pot_odd, pot_even, n - 1);
        let rest = best_kid(kids, pot_odd, pot_even, n - 1);
        let here = best_raw(kids[n - 1], pot_odd, pot_even);
        let now = best_kid(kids, pot_odd, pot_even, n);
        if now == Some(here) {
            assert(now->0 == best_raw(kids[n - 1], pot_odd, pot_even));
        } else {
            assert(now == rest);
            let j = choose|j: int|
                0 <= j < n - 1 && rest->0 == best_raw(#[trigger] kids[j], pot_odd, pot_even);
            assert(now->0 == best_raw(kids[j], pot_odd, pot_even));
        }
    }
}

/// The search gives a sound path: no turn of it lies outside the range from
/// minus six to six, swapped or not, and its cost is the cost of its turns.
pub proof fn lemma_best_raw_sound(step: StepView, pot_odd: int, pot_even: int)
    requires
        tree_ok(step),
    ensures
        sound(step, best_raw(step, pot_odd, pot_even)),
    decreases step,
{
    lemma_swap_cost(step.readable);
    lemma_swap_cost(onhead(step.readable));
    let result = best_raw(step, pot_odd, pot_even);
    if step.slices <= -1 {
        let one = result.3;
        assert(one.len() == 1);
        assert(one.drop_last() =~= Seq::<(i8, i8)>::empty());
        assert(path_cost(one.drop_last()) == 0);
        assert(path_cost(one) == length(one[0]));
    } else if step.slices == 0 {
        if step.kids.len() > 0 {
            let kid = step.kids[0];
            lemma_best_raw_sound(kid, pot_odd, pot_even);
            let below = best_raw(kid, pot_odd, pot_even);
            let turn = result.3.last();
            assert(result.3 == below.3.push(turn));
            lemma_sound_push(step, kid, below, turn, (result.0, result.1));
        } else {
            assert(path_cost(Seq::<(i8, i8)>::empty()) == 0);
        }
    } else {
        let new_swap = length_swap(step.readable) - length(step.readable);
        let odd = step.slices % 2 == 1;
        let swap_is_better = new_swap <= if odd {
            pot_odd
        } else {
            pot_even
        };
        let next_odd = if odd && swap_is_better {
            new_swap
        } else {
            pot_odd
        };
        let next_even = if !odd && swap_is_better {
            new_swap
        } else {
            pot_even
        };
        lemma_best_kid_is(step.kids, next_odd, next_even, step.kids.len() as int);
        match best_kid(step.kids, next_odd, next_even, step.kids.len() as int) {
            Some(best) => {
                let j = choose|j: int|
                    0 <= j < step.kids.len() && best == best_raw(
                        #[trigger] step.kids[j],
                        next_odd,
                        next_even,
                    );
                let kid = step.kids[j];
                lemma_best_raw_sound(kid, next_odd, next_even);
                let turn = result.3.last();
                assert(result.3 == best.3.push(turn));
                lemma_sound_push(step, kid, best, turn, (result.0, result.1));
            },
            None => {
                assert(path_cost(Seq::<(i8, i8)>::empty()) == 0);
            },
        }
    }
}

/// At the end of a path a turn is swapped when that is strictly cheaper,
/// the least cost of a swap above counted in.
pub proof fn lemma_last_turn_swaps(step: StepView, pot_odd: int, pot_even: int)
    requires
        step.slices == -1,
    ensures
        best_raw(step, pot_odd, pot_even).0 == (pot_odd + length_swap(step.readable) < length(
            step.readable,
        )),
        best_raw(step, pot_odd, pot_even).2 == if pot_odd + length_swap(step.readable) < length(
            step.readable,
        ) {
            length_swap(step.readable)
        } else {
            length(step.readable)
        },
{
}

} // verus!
