//! The slice-count table: for every index the least number of slice moves
//! that solve a configuration with that index, two entries to a byte, and the
//! breadth-first search that fills it.
pub mod postable;

use vstd::prelude::*;
use vstd::slice::{slice_subrange, slice_to_vec};
use vstd::string::StringExecFns;
use crate::square1::{lemma_solved, lemma_unpack_packed, packed, solved_pieces, unpacked, Square1};
use crate::state::{indices_view, State};
use crate::table::postable::{
    lemma_numbers_of_block, lemma_store_bytes_joined, lemma_store_bytes_len, numbers_of,
    store_bytes, PosTable,
};
use crate::text::{decimal, decimal_string, decimal_string_two_wide, decimal_two_wide};

verus! {

/// The value of an entry that no configuration was found for yet.
pub const UNVISITED: u8 = 15;

/// The entry at `index`: the high half of its byte for an even index, the
/// low half for an odd one.
pub open spec fn entry(table: Seq<u8>, index: int) -> int {
    if index % 2 == 0 {
        table[index / 2] as int / 16
    } else {
        table[index / 2] as int % 16
    }
}

/// The table with `value` written at `index`.
pub open spec fn with_entry(table: Seq<u8>, index: int, value: int) -> Seq<u8> {
    let byte = table[index / 2] as int;
    table.update(
        index / 2,
        (if index % 2 == 0 {
            value * 16 + byte % 16
        } else {
            (byte / 16) * 16 + value
        }) as u8,
    )
}

/// The number of entries below `n` that hold a value.
pub open spec fn set_count(table: Seq<u8>, n: int) -> int
    decreases n,
{
    if n <= 0 {
        0
    } else {
        set_count(table, n - 1) + if entry(table, n - 1) != 15 {
            1int
        } else {
            0int
        }
    }
}

/// A table and the number of entries that were written into it.
pub type Filled = (Seq<u8>, int);

/// The table after `value` was written at `index`, if the entry was empty,
/// and whether it was.
pub open spec fn written_once(table: Seq<u8>, index: int, value: int) -> (Seq<u8>, bool) {
    if entry(table, index) == 15 {
        (with_entry(table, index, value), true)
    } else {
        (table, false)
    }
}

/// The table after `value` was written at the first `n` of the given
/// indices, where the entry was empty, and the number of entries written.
pub open spec fn written_all(table: Seq<u8>, indices: Seq<nat>, value: int, n: int) -> Filled
    decreases n,
{
    if n <= 0 {
        (table, 0)
    } else {
        let before = written_all(table, indices, value, n - 1);
        let w = written_once(before.0, indices[n - 1] as int, value);
        (
            w.0,
            before.1 + if w.1 {
                1int
            } else {
                0int
            },
        )
    }
}

/// The table after the configuration `next` was found at `depth`, and
/// whether the search goes on from it: it does where the entry of the
/// configuration was empty and `depth` is not the last.
pub open spec fn visited<S: State>(t: Filled, next: u64, depth: int, at_max: bool) -> (
    Filled,
    bool,
) {
    let s = unpacked(next as nat, 16);
    let w = written_once(t.0, S::index_of(s) as int, depth);
    if w.1 {
        let sym = S::symmetric_of(s);
        let all = written_all(w.0, sym, depth, sym.len() as int);
        ((all.0, t.1 + 1 + all.1), !at_max)
    } else {
        (t, false)
    }
}

/// The table after the first `n` of the configurations `nexts` were found
/// at `depth`, and those of them that the search goes on from.
pub open spec fn visited_all<S: State>(
    t: Filled,
    nexts: Seq<u64>,
    depth: int,
    at_max: bool,
    n: int,
) -> (Filled, Seq<u64>)
    decreases n,
{
    if n <= 0 {
        (t, Seq::empty())
    } else {
        let before = visited_all::<S>(t, nexts, depth, at_max, n - 1);
        let v = visited::<S>(before.0, nexts[n - 1], depth, at_max);
        (
            v.0,
            if v.1 {
                before.1.push(nexts[n - 1])
            } else {
                before.1
            },
        )
    }
}

/// The table after the search went one step on from the first `n` of the
/// configurations `closed`, and the configurations that it reached first.
pub open spec fn expanded<S: State>(
    t: Filled,
    closed: Seq<u64>,
    depth: int,
    at_max: bool,
    n: int,
) -> (Filled, Seq<u64>)
    decreases n,
{
    if n <= 0 {
        (t, Seq::empty())
    } else {
        let before = expanded::<S>(t, closed, depth, at_max, n - 1);
        let nexts = S::successors_of(unpacked(closed[n - 1] as nat, 16));
        let v = visited_all::<S>(before.0, nexts, depth, at_max, nexts.len() as int);
        (v.0, before.1 + v.1)
    }
}

/// The table after the search went on from `closed` at `depth` until nothing
/// new was reached, the table was full or the greatest depth was reached, and
/// the depth at which it ended.
pub open spec fn searched<S: State>(t: Filled, closed: Seq<u64>, depth: int) -> (Filled, int)
    decreases S::MAX_SLICES - depth,
{
    if closed.len() == 0 || t.1 == S::SIZE || depth >= S::MAX_SLICES {
        (t, depth)
    } else {
        let e = expanded::<S>(t, closed, depth, depth == S::MAX_SLICES - 1, closed.len() as int);
        searched::<S>(e.0, e.1, depth + 1)
    }
}

/// A byte with each empty half filled with `value`.
pub open spec fn filled_byte(byte: u8, value: int) -> u8 {
    ((if byte as int / 16 == 15 {
        value
    } else {
        byte as int / 16
    }) * 16 + (if byte as int % 16 == 15 {
        value
    } else {
        byte as int % 16
    })) as u8
}

/// The table with every empty entry filled with `value`.
pub open spec fn filled_rest(table: Seq<u8>, value: int) -> Seq<u8> {
    table.map_values(|byte: u8| filled_byte(byte, value))
}

/// The empty table of an indexing.
pub open spec fn empty_table<S: State>() -> Seq<u8> {
    Seq::new(((S::SIZE + 1) / 2) as nat, |i: int| 255u8)
}

/// The table and the first configurations of the search: the solved
/// configuration at depth zero.
pub open spec fn started<S: State>() -> (Filled, Seq<u64>) {
    (
        (with_entry(empty_table::<S>(), S::index_of(solved_pieces()) as int, 0), 1),
        seq![packed(solved_pieces()) as u64],
    )
}

/// The table that the search from the solved configuration gives.
pub open spec fn generated<S: State>() -> Seq<u8> {
    let start = started::<S>();
    let end = searched::<S>(start.0, start.1, 1);
    if end.1 == S::MAX_SLICES && end.0.1 != S::SIZE {
        filled_rest(end.0.0, S::MAX_SLICES as int)
    } else {
        end.0.0
    }
}

/// The table is as long as the indexing asks, the number of its entries that
/// were written is right, and no entry holds more than the greatest depth.
pub open spec fn table_wf<S: State>(t: Filled) -> bool {
    &&& t.0.len() == (S::SIZE + 1) / 2
    &&& t.1 == set_count(t.0, S::SIZE as int)
    &&& forall|i: int|
        0 <= i < S::SIZE ==> #[trigger] entry(t.0, i) == 15 || entry(t.0, i) < S::MAX_SLICES
}

/// The table as a search leaves it: as long as the indexing asks, with the
/// right number of entries written, and every entry empty or a depth up to
/// the greatest.
pub open spec fn table_settled<S: State>(t: Filled) -> bool {
    &&& t.0.len() == (S::SIZE + 1) / 2
    &&& t.1 == set_count(t.0, S::SIZE as int)
    &&& forall|i: int|
        0 <= i < S::SIZE ==> #[trigger] entry(t.0, i) == 15 || entry(t.0, i) <= S::MAX_SLICES
}

/// Every configuration of a list is one that the indexing covers.
pub open spec fn all_indexable<S: State>(closed: Seq<u64>) -> bool {
    forall|i: int| 0 <= i < closed.len() ==> S::indexable(unpacked(#[trigger] closed[i] as nat, 16))
}

/// Writing an entry changes that entry and no other.
pub proof fn lemma_with_entry(table: Seq<u8>, index: int, value: int, other: int)
    requires
        0 <= index < 2 * table.len(),
        0 <= other < 2 * table.len(),
        0 <= value <= 15,
    ensures
        with_entry(table, index, value).len() == table.len(),
        entry(with_entry(table, index, value), other) == if other == index {
            value
        } else {
            entry(table, other)
        },
{
    let byte = table[index / 2] as int;
    assert(0 <= byte < 256);
    if index % 2 == 0 {
        assert((value * 16 + byte % 16) / 16 == value);
        assert((value * 16 + byte % 16) % 16 == byte % 16);
    } else {
        assert(((byte / 16) * 16 + value) / 16 == byte / 16);
        assert(((byte / 16) * 16 + value) % 16 == value);
    }
}

/// The entries that hold a value are counted among those below `n`.
pub proof fn lemma_set_count_bounds(table: Seq<u8>, n: int)
    requires
        0 <= n,
    ensures
        0 <= set_count(table, n) <= n,
        set_count(table, n) == n ==> forall|i: int| 0 <= i < n ==> #[trigger] entry(table, i) != 15,
    decreases n,
{
    if n > 0 {
        lemma_set_count_bounds(table, n - 1);
    }
}

/// Where every entry below `n` holds a value, all of them are counted.
pub proof fn lemma_set_count_full(table: Seq<u8>, n: int)
    requires
        0 <= n,
        forall|i: int| 0 <= i < n ==> #[trigger] entry(table, i) != 15,
    ensures
        set_count(table, n) == n,
    decreases n,
{
    if n > 0 {
        lemma_set_count_full(table, n - 1);
    }
}

/// Writing into an empty entry below `n` makes one more entry hold a value.
pub proof fn lemma_set_count_written(table: Seq<u8>, index: int, value: int, n: int)
    requires
        0 <= index < 2 * table.len(),
        0 <= n <= 2 * table.len(),
        0 <= value < 15,
        entry(table, index) == 15,
    ensures
        set_count(with_entry(table, index, value), n) == set_count(table, n) + if index < n {
            1int
        } else {
            0int
        },
    decreases n,
{
    if n > 0 {
        lemma_set_count_written(table, index, value, n - 1);
        lemma_with_entry(table, index, value, n - 1);
    }
}

/// Writing once keeps a table well formed; the count grows by one where the
/// entry was empty.
pub proof fn lemma_written_once<S: State>(t: Filled, index: int, value: int)
    requires
        table_wf::<S>(t),
        0 <= index < S::SIZE,
        0 <= value < S::MAX_SLICES,
        S::MAX_SLICES <= 14,
    ensures
        table_wf::<S>(
            (
                written_once(t.0, index, value).0,
                t.1 + if written_once(t.0, index, value).1 {
                    1int
                } else {
                    0int
                },
            ),
        ),
{
    let w = written_once(t.0, index, value);
    if w.1 {
        lemma_set_count_written(t.0, index, value, S::SIZE as int);
        assert forall|i: int| 0 <= i < S::SIZE implies #[trigger] entry(w.0, i) == 15 || entry(
            w.0,
            i,
        ) < S::MAX_SLICES by {
            lemma_with_entry(t.0, index, value, i);
        }
        lemma_with_entry(t.0, index, value, index);
    }
}

/// Writing at several indices keeps a table well formed; the count grows by
/// the number of entries written.
pub proof fn lemma_written_all<S: State>(t: Filled, indices: Seq<nat>, value: int, n: int)
    requires
        table_wf::<S>(t),
        0 <= n <= indices.len(),
        forall|i: int| 0 <= i < indices.len() ==> #[trigger] indices[i] < S::SIZE,
        0 <= value < S::MAX_SLICES,
        S::MAX_SLICES <= 14,
    ensures
        table_wf::<S>(
            (written_all(t.0, indices, value, n).0, t.1 + written_all(t.0, indices, value, n).1),
        ),
        0 <= written_all(t.0, indices, value, n).1 <= n,
    decreases n,
{
    if n > 0 {
        lemma_written_all::<S>(t, indices, value, n - 1);
        let before = written_all(t.0, indices, value, n - 1);
        lemma_written_once::<S>((before.0, t.1 + before.1), indices[n - 1] as int, value);
    }
}

/// Going on from a list of configurations is going on from its first part
/// and then, in the table that this gives, from the rest. This is what lets
/// the search read a level in chunks of any size.
pub proof fn lemma_expanded_in_chunks<S: State>(
    t: Filled,
    first: Seq<u64>,
    rest: Seq<u64>,
    depth: int,
    at_max: bool,
)
    ensures
        expanded::<S>(t, first + rest, depth, at_max, (first + rest).len() as int) == ({
            let a = expanded::<S>(t, first, depth, at_max, first.len() as int);
            let b = expanded::<S>(a.0, rest, depth, at_max, rest.len() as int);
            (b.0, a.1 + b.1)
        }),
    decreases rest.len(),
{
    let a = expanded::<S>(t, first, depth, at_max, first.len() as int);
    if rest.len() == 0 {
        assert(first + rest =~= first);
        assert(a.1 + Seq::<u64>::empty() =~= a.1);
    } else {
        let shorter = rest.drop_last();
        lemma_expanded_in_chunks::<S>(t, first, shorter, depth, at_max);
        lemma_expanded_prefix::<S>(t, first + rest, first + shorter, depth, at_max, (first
            + shorter).len() as int);
        lemma_expanded_prefix::<S>(a.0, rest, shorter, depth, at_max, shorter.len() as int);
        assert((first + rest)[(first + rest).len() - 1] == rest[rest.len() - 1]);
        let b0 = expanded::<S>(a.0, shorter, depth, at_max, shorter.len() as int);
        let nexts = S::successors_of(unpacked(rest[rest.len() - 1] as nat, 16));
        let v = visited_all::<S>(b0.0, nexts, depth, at_max, nexts.len() as int);
        assert((a.1 + b0.1) + v.1 =~= a.1 + (b0.1 + v.1));
    }
}

/// Going on from the first `n` configurations of a list does not depend on
/// the rest of the list.
pub proof fn lemma_expanded_prefix<S: State>(
    t: Filled,
    long: Seq<u64>,
    short: Seq<u64>,
    depth: int,
    at_max: bool,
    n: int,
)
    requires
        0 <= n <= short.len() <= long.len(),
        forall|i: int| 0 <= i < short.len() ==> short[i] == long[i],
    ensures
        expanded::<S>(t, long, depth, at_max, n) == expanded::<S>(t, short, depth, at_max, n),
    decreases n,
{
    if n > 0 {
        lemma_expanded_prefix::<S>(t, long, short, depth, at_max, n - 1);
    }
}

/// Filling the empty entries of a table with a value leaves the other
/// entries as they are.
pub proof fn lemma_filled_rest(table: Seq<u8>, value: int, index: int)
    requires
        0 <= index < 2 * table.len(),
        0 <= value < 15,
    ensures
        filled_rest(table, value).len() == table.len(),
        entry(filled_rest(table, value), index) == if entry(table, index) == 15 {
            value
        } else {
            entry(table, index)
        },
{
    let byte = table[index / 2];
    let high = if byte as int / 16 == 15 {
        value
    } else {
        byte as int / 16
    };
    let low = if byte as int % 16 == 15 {
        value
    } else {
        byte as int % 16
    };
    assert(0 <= high <= 15 && 0 <= low <= 15);
    assert((high * 16 + low) / 16 == high);
    assert((high * 16 + low) % 16 == low);
    assert(filled_rest(table, value)[index / 2] == filled_byte(byte, value));
}

/// The slice-count table of an indexing, and the number of its entries that
/// were written.
pub struct SliceCountTable<S: State> {
    pub table: Vec<u8>,
    pub filled: usize,
    pub marker: core::marker::PhantomData<S>,
}

impl<S: State> SliceCountTable<S> {
    /// The table and the number of its entries that were written.
    pub open spec fn state(&self) -> Filled {
        (self.table@, self.filled as int)
    }

    /// The table is as long as the indexing asks, and the number of its
    /// entries that were written is right.
    pub open spec fn wf(&self) -> bool {
        table_wf::<S>(self.state())
    }

    /// An empty table.
    pub fn new() -> (table: Self)
        ensures
            table.table@ == empty_table::<S>(),
            table.filled == 0,
            table.wf(),
    {
        proof {
            S::lemma_scheme();
        }
        let table: Vec<u8> = vec![255u8; (S::SIZE + 1) / 2];
        proof {
            assert(table@ =~= empty_table::<S>());
            assert forall|i: int| 0 <= i < S::SIZE implies #[trigger] entry(table@, i) == 15 by {
                assert(table@[i / 2] == 255);
            }
            lemma_set_count_empty(table@, S::SIZE as int);
        }
        Self { table, filled: 0, marker: core::marker::PhantomData }
    }

    /// Whether every entry was written.
    pub fn table_is_full(&self) -> (full: bool)
        ensures
            full == (self.filled == S::SIZE),
    {
        self.filled == S::SIZE
    }

    /// Whether the entry at `index` is empty: the look that a writer takes
    /// under the shared lock, before it asks for the exclusive one.
    pub fn is_unset(table: &Vec<u8>, index: usize) -> (unset: bool)
        requires
            index / 2 < table@.len(),
        ensures
            unset == (entry(table@, index as int) == 15),
    {
        let table_value: u8 = table[index / 2];
        if index % 2 == 0 {
            table_value / 16 == UNVISITED
        } else {
            table_value % 16 == UNVISITED
        }
    }

    /// Writes `value` at `index` if the entry is empty: what a writer does
    /// under the exclusive lock. It looks at the entry again, so that of two
    /// writers that both saw it empty only the first writes.
    pub fn write_locked(table: &mut Vec<u8>, index: usize, value: u8) -> (res: Result<(), ()>)
        requires
            index / 2 < old(table)@.len(),
            value <= 15,
        ensures
            final(table)@ == written_once(old(table)@, index as int, value as int).0,
            res is Ok == written_once(old(table)@, index as int, value as int).1,
    {
        let table_value: u8 = table[index / 2];
        if index % 2 == 0 {
            let left: u8 = table_value / 16;
            if left == UNVISITED {
                let right: u8 = table_value % 16;
                table.set(index / 2, value * 16 + right);
                Ok(())
            } else {
                Err(())
            }
        } else {
            let right: u8 = table_value % 16;
            if right == UNVISITED {
                let left: u8 = table_value / 16;
                table.set(index / 2, left * 16 + value);
                Ok(())
            } else {
                Err(())
            }
        }
    }

    /// Writes `value` at `index` if the entry is empty, and fails if it is
    /// not: an entry is written once.
    pub fn write_shared(table: &mut Vec<u8>, index: usize, value: u8) -> (res: Result<(), ()>)
        requires
            index / 2 < old(table)@.len(),
            value <= 15,
        ensures
            final(table)@ == written_once(old(table)@, index as int, value as int).0,
            res is Ok == written_once(old(table)@, index as int, value as int).1,
            res is Ok <==> entry(old(table)@, index as int) == 15,
    {
        if Self::is_unset(table, index) {
            Self::write_locked(table, index, value)
        } else {
            Err(())
        }
    }

    /// The entry at `index`.
    pub fn read(table: &Vec<u8>, index: usize) -> (value: u8)
        requires
            index / 2 < table@.len(),
        ensures
            value == entry(table@, index as int),
            value <= 15,
    {
        if index % 2 == 0 {
            table[index / 2] / 16
        } else {
            table[index / 2] % 16
        }
    }

    /// Writes `depth` at each of the given indices whose entry is empty, and
    /// counts the entries written.
    fn write_symmetric(&mut self, indices: &Vec<usize>, depth: u8) -> (count: usize)
        requires
            table_wf::<S>((old(self).table@, old(self).filled + 1)),
            forall|i: int| 0 <= i < indices@.len() ==> #[trigger] indices@[i] < S::SIZE,
            depth < S::MAX_SLICES <= 14,
        ensures
            (final(self).table@, count as int) == written_all(
                old(self).table@,
                indices_view(indices@),
                depth as int,
                indices@.len() as int,
            ),
            final(self).filled == old(self).filled,
            table_wf::<S>((final(self).table@, old(self).filled + 1 + count)),
    {
        let ghost start = self.table@;
        let ghost all = indices_view(indices@);
        let mut count: usize = 0;
        let mut i: usize = 0;
        while i < indices.len()
            invariant
                i <= indices@.len(),
                all == indices_view(indices@),
                forall|j: int| 0 <= j < indices@.len() ==> #[trigger] indices@[j] < S::SIZE,
                depth < S::MAX_SLICES <= 14,
                table_wf::<S>((start, old(self).filled + 1)),
                self.filled == old(self).filled,
                (self.table@, count as int) == written_all(start, all, depth as int, i as int),
                count <= i,
            decreases indices@.len() - i,
        {
            proof {
                assert forall|j: int| 0 <= j < all.len() implies #[trigger] all[j] < S::SIZE by {
                    assert(indices@[j] < S::SIZE);
                }
                lemma_written_all::<S>((start, old(self).filled + 1), all, depth as int, i as int);
                assert(all[i as int] == indices@[i as int]);
            }
            if Self::write_shared(&mut self.table, indices[i], depth).is_ok() {
                count += 1;
            }
            i += 1;
        }
        proof {
            assert forall|j: int| 0 <= j < all.len() implies #[trigger] all[j] < S::SIZE by {
                assert(indices@[j] < S::SIZE);
            }
            lemma_written_all::<S>(
                (start, old(self).filled + 1),
                all,
                depth as int,
                indices@.len() as int,
            );
        }
        count
    }

    /// Notes that the configuration `next` was found at `depth`: writes the
    /// depth at its index and, if that entry was empty, at its symmetric
    /// indices. Says whether the search goes on from the configuration.
    fn visit(&mut self, next: u64, depth: u8, at_max: bool) -> (keep: bool)
        requires
            old(self).wf(),
            S::indexable(unpacked(next as nat, 16)),
            depth < S::MAX_SLICES <= 14,
        ensures
            (final(self).state(), keep) == visited::<S>(
                old(self).state(),
                next,
                depth as int,
                at_max,
            ),
            final(self).wf(),
            at_max ==> !keep,
    {
        let mut state: S = S::new(Square1::from_num(next));
        proof {
            lemma_written_once::<S>(
                self.state(),
                S::index_of(unpacked(next as nat, 16)) as int,
                depth as int,
            );
            lemma_set_count_bounds(self.table@, S::SIZE as int);
        }
        match Self::write_shared(&mut self.table, state.get_index(), depth) {
            Ok(_) => {
                let symmetric: Vec<usize> = state.get_symmetric_indecies();
                let written: usize = self.write_symmetric(&symmetric, depth);
                proof {
                    lemma_set_count_bounds(self.table@, S::SIZE as int);
                }
                let inc: usize = 1 + written;
                self.filled = self.filled + inc;
                !at_max
            },
            Err(_) => false,
        }
    }

    /// Goes one step on from each configuration of `chunk`: notes every
    /// configuration that a layer turn and the slice move lead to at
    /// `depth`, and gives those that were reached first.
    pub fn expand_chunk(&mut self, chunk: &Vec<u64>, depth: u8, at_max: bool) -> (opened: Vec<u64>)
        requires
            old(self).wf(),
            all_indexable::<S>(chunk@),
            depth < S::MAX_SLICES,
        ensures
            (final(self).state(), opened@) == expanded::<S>(
                old(self).state(),
                chunk@,
                depth as int,
                at_max,
                chunk@.len() as int,
            ),
            final(self).wf(),
            all_indexable::<S>(opened@),
            at_max ==> opened@.len() == 0,
    {
        proof {
            S::lemma_scheme();
        }
        let ghost start = self.state();
        let mut opened: Vec<u64> = Vec::new();
        let mut i: usize = 0;
        while i < chunk.len()
            invariant
                i <= chunk@.len(),
                self.wf(),
                all_indexable::<S>(chunk@),
                depth < S::MAX_SLICES <= 14,
                (self.state(), opened@) == expanded::<S>(start, chunk@, depth as int, at_max, i as int),
                all_indexable::<S>(opened@),
                at_max ==> opened@.len() == 0,
            decreases chunk@.len() - i,
        {
            let nexts: Vec<u64> = S::gen_next_positions(chunk[i]);
            let ghost outer = opened@;
            let ghost before = self.state();
            let mut j: usize = 0;
            assert(outer + Seq::<u64>::empty() =~= outer);
            while j < nexts.len()
                invariant
                    j <= nexts@.len(),
                    self.wf(),
                    depth < S::MAX_SLICES <= 14,
                    all_indexable::<S>(nexts@),
                    all_indexable::<S>(opened@),
                    at_max ==> opened@.len() == 0,
                    opened@ == outer + visited_all::<S>(
                        before,
                        nexts@,
                        depth as int,
                        at_max,
                        j as int,
                    ).1,
                    self.state() == visited_all::<S>(before, nexts@, depth as int, at_max, j as int).0,
                decreases nexts@.len() - j,
            {
                let next: u64 = nexts[j];
                let ghost kept = opened@;
                if self.visit(next, depth, at_max) {
                    opened.push(next);
                    assert(opened@ =~= outer + visited_all::<S>(
                        before,
                        nexts@,
                        depth as int,
                        at_max,
                        j as int,
                    ).1.push(next));
                }
                j += 1;
            }
            i += 1;
        }
        opened
    }

    /// Fills every entry that is still empty with the greatest depth.
    pub fn fill_rest(&mut self)
        requires
            old(self).wf(),
        ensures
            final(self).table@ == filled_rest(old(self).table@, S::MAX_SLICES as int),
            final(self).filled == S::SIZE,
            forall|i: int| 0 <= i < S::SIZE ==> #[trigger] entry(final(self).table@, i)
                <= S::MAX_SLICES,
            table_settled::<S>(final(self).state()),
    {
        proof {
            S::lemma_scheme();
        }
        let ghost start = self.table@;
        let mut i: usize = 0;
        while i < self.table.len()
            invariant
                i <= self.table@.len(),
                self.table@.len() == start.len(),
                2 <= S::MAX_SLICES <= 14,
                forall|j: int| 0 <= j < i ==> #[trigger] self.table@[j] == filled_byte(
                    start[j],
                    S::MAX_SLICES as int,
                ),
                forall|j: int| i <= j < start.len() ==> #[trigger] self.table@[j] == start[j],
            decreases self.table@.len() - i,
        {
            let table_value: u8 = self.table[i];
            let left: u8 = if table_value / 16 == UNVISITED {
                S::MAX_SLICES
            } else {
                table_value / 16
            };
            let right: u8 = if table_value % 16 == UNVISITED {
                S::MAX_SLICES
            } else {
                table_value % 16
            };
            self.table.set(i, left * 16 + right);
            i += 1;
        }
        self.filled = S::SIZE;
        proof {
            assert(self.table@ =~= filled_rest(start, S::MAX_SLICES as int));
            assert forall|i: int| 0 <= i < S::SIZE implies #[trigger] entry(self.table@, i)
                <= S::MAX_SLICES by {
                lemma_filled_rest(start, S::MAX_SLICES as int, i);
                assert(entry(start, i) == 15 || entry(start, i) < S::MAX_SLICES);
            }
            lemma_set_count_full(self.table@, S::SIZE as int);
        }
    }

    /// Fills the table by a search from the solved configuration: level by
    /// level, until nothing new is reached, the table is full or the
    /// greatest depth is reached; what is then still empty gets the greatest
    /// depth. Where the table is then full, every entry holds a depth.
    pub fn generate(&mut self)
        requires
            old(self).table@ == empty_table::<S>(),
            old(self).filled == 0,
        ensures
            final(self).table@ == generated::<S>(),
            table_settled::<S>(final(self).state()),
            final(self).filled == S::SIZE ==> forall|i: int|
                0 <= i < S::SIZE ==> #[trigger] entry(final(self).table@, i) <= S::MAX_SLICES,
    {
        proof {
            S::lemma_scheme();
            lemma_solved();
        }
        let mut closed: Vec<u64> = self.start();
        let mut slice_depth: u8 = 1;
        while !closed.is_empty() && !self.table_is_full()
            invariant
                self.wf(),
                all_indexable::<S>(closed@),
                1 <= slice_depth <= S::MAX_SLICES,
                2 <= S::MAX_SLICES <= 14,
                slice_depth == S::MAX_SLICES ==> closed@.len() == 0,
                searched::<S>(started::<S>().0, started::<S>().1, 1) == searched::<S>(
                    self.state(),
                    closed@,
                    slice_depth as int,
                ),
            decreases S::MAX_SLICES - slice_depth,
        {
            let at_max: bool = slice_depth == S::MAX_SLICES - 1;
            closed = self.expand_chunk(&closed, slice_depth, at_max);
            slice_depth += 1;
        }
        if slice_depth == S::MAX_SLICES && !self.table_is_full() {
            self.fill_rest();
        } else {
            proof {
                lemma_set_count_bounds(self.table@, S::SIZE as int);
            }
        }
    }

    /// Begins the search: notes the solved configuration at depth zero, and
    /// gives it as the first level.
    pub fn start(&mut self) -> (closed: Vec<u64>)
        requires
            old(self).table@ == empty_table::<S>(),
            old(self).filled == 0,
        ensures
            (final(self).state(), closed@) == started::<S>(),
            final(self).wf(),
            all_indexable::<S>(closed@),
    {
        proof {
            S::lemma_scheme();
            lemma_solved();
            lemma_unpack_packed(solved_pieces());
            crate::square1::lemma_packed_bound(solved_pieces());
            crate::square1::lemma_pow16_16();
            assert forall|i: int| 0 <= i < S::SIZE implies #[trigger] entry(self.table@, i)
                == 15 by {
                assert(self.table@[i / 2] == 255);
            }
            lemma_set_count_empty(self.table@, S::SIZE as int);
        }
        let mut closed: Vec<u64> = Vec::new();
        let solved: Square1 = Square1::solved();
        closed.push(solved.get_num());
        let state: S = S::new(solved);
        proof {
            lemma_written_once::<S>(self.state(), S::index_of(solved_pieces()) as int, 0);
        }
        let _ = Self::write_shared(&mut self.table, state.get_index(), 0);
        self.filled = self.filled + 1;
        assert(closed@ =~= seq![packed(solved_pieces()) as u64]);
        closed
    }
}

/// A table with no entry written holds no value.
pub proof fn lemma_set_count_empty(table: Seq<u8>, n: int)
    requires
        forall|i: int| 0 <= i < n ==> #[trigger] entry(table, i) == 15,
    ensures
        set_count(table, n) == 0,
    decreases n,
{
    if n > 0 {
        lemma_set_count_empty(table, n - 1);
    }
}

/// The first `n` of the given chunks, one behind the other.
pub open spec fn joined(chunks: Seq<Seq<u64>>, n: int) -> Seq<u64>
    decreases n,
{
    if n <= 0 {
        Seq::empty()
    } else {
        joined(chunks, n - 1) + chunks[n - 1]
    }
}

/// The table after the search went one step on from the first `n` of the
/// given chunks, one after the other, and the configurations that it reached
/// first.
pub open spec fn expanded_chunks<S: State>(
    t: Filled,
    chunks: Seq<Seq<u64>>,
    depth: int,
    at_max: bool,
    n: int,
) -> (Filled, Seq<u64>)
    decreases n,
{
    if n <= 0 {
        (t, Seq::empty())
    } else {
        let before = expanded_chunks::<S>(t, chunks, depth, at_max, n - 1);
        let e = expanded::<S>(before.0, chunks[n - 1], depth, at_max, chunks[n - 1].len() as int);
        (e.0, before.1 + e.1)
    }
}

/// A level that is read in chunks gives the table and the next level that
/// the level read at once gives: the search that keeps its levels in memory
/// and the search that keeps them in a store end with the same table.
pub proof fn lemma_level_in_chunks<S: State>(
    t: Filled,
    chunks: Seq<Seq<u64>>,
    depth: int,
    at_max: bool,
    n: int,
)
    requires
        0 <= n <= chunks.len(),
    ensures
        expanded_chunks::<S>(t, chunks, depth, at_max, n) == expanded::<S>(
            t,
            joined(chunks, n),
            depth,
            at_max,
            joined(chunks, n).len() as int,
        ),
    decreases n,
{
    if n > 0 {
        lemma_level_in_chunks::<S>(t, chunks, depth, at_max, n - 1);
        lemma_expanded_in_chunks::<S>(t, joined(chunks, n - 1), chunks[n - 1], depth, at_max);
    }
}

/// The levels of a search that keeps them in a store, each as the chunks in
/// which it is read, fit the table `t` at `depth`: as long as the search
/// goes on, the chunks of the next level hold what the chunks of the level
/// before it gave.
pub open spec fn levels_fit<S: State>(t: Filled, levels: Seq<Seq<Seq<u64>>>, depth: int) -> bool
    decreases levels.len(),
{
    if levels.len() <= 1 {
        true
    } else {
        let closed = joined(levels[0], levels[0].len() as int);
        if closed.len() == 0 || t.1 == S::SIZE || depth >= S::MAX_SLICES {
            true
        } else {
            let e = expanded_chunks::<S>(
                t,
                levels[0],
                depth,
                depth == S::MAX_SLICES - 1,
                levels[0].len() as int,
            );
            joined(levels[1], levels[1].len() as int) == e.1 && levels_fit::<S>(
                e.0,
                levels.drop_first(),
                depth + 1,
            )
        }
    }
}

/// The table after the search went on from the first of the given levels,
/// chunk by chunk and level by level, until nothing new was reached, the
/// table was full or the greatest depth was reached, and the depth at which
/// it ended.
pub open spec fn searched_in_chunks<S: State>(
    t: Filled,
    levels: Seq<Seq<Seq<u64>>>,
    depth: int,
) -> (Filled, int)
    decreases levels.len(),
{
    if levels.len() == 0 {
        (t, depth)
    } else {
        let closed = joined(levels[0], levels[0].len() as int);
        if closed.len() == 0 || t.1 == S::SIZE || depth >= S::MAX_SLICES {
            (t, depth)
        } else {
            let e = expanded_chunks::<S>(
                t,
                levels[0],
                depth,
                depth == S::MAX_SLICES - 1,
                levels[0].len() as int,
            );
            searched_in_chunks::<S>(e.0, levels.drop_first(), depth + 1)
        }
    }
}

/// The search that reads its levels from a store, in chunks of any size,
/// ends with the table and at the depth of the search that keeps each level
/// whole in memory.
pub proof fn lemma_searched_in_chunks<S: State>(t: Filled, levels: Seq<Seq<Seq<u64>>>, depth: int)
    requires
        levels.len() >= 1,
        levels.len() > S::MAX_SLICES - depth,
        levels_fit::<S>(t, levels, depth),
    ensures
        searched_in_chunks::<S>(t, levels, depth) == searched::<S>(
            t,
            joined(levels[0], levels[0].len() as int),
            depth,
        ),
    decreases levels.len(),
{
    let closed = joined(levels[0], levels[0].len() as int);
    if !(closed.len() == 0 || t.1 == S::SIZE || depth >= S::MAX_SLICES) {
        let at_max = depth == S::MAX_SLICES - 1;
        let e = expanded_chunks::<S>(t, levels[0], depth, at_max, levels[0].len() as int);
        lemma_level_in_chunks::<S>(t, levels[0], depth, at_max, levels[0].len() as int);
        let rest = levels.drop_first();
        assert(rest[0] == levels[1]);
        lemma_searched_in_chunks::<S>(e.0, rest, depth + 1);
    }
}

impl<S: State> SliceCountTable<S> {
    /// Whether the indexing covers every configuration of a chunk.
    pub fn accepts_all(chunk: &Vec<u64>) -> (all: bool)
        ensures
            all == all_indexable::<S>(chunk@),
    {
        let mut i: usize = 0;
        while i < chunk.len()
            invariant
                i <= chunk@.len(),
                forall|j: int| 0 <= j < i ==> S::indexable(unpacked(#[trigger] chunk@[j] as nat, 16)),
            decreases chunk@.len() - i,
        {
            let sq1: Square1 = Square1::from_num(chunk[i]);
            if !S::accepts(&sq1) {
                return false;
            }
            i += 1;
        }
        true
    }

    /// Goes one step on from each configuration of `chunk`, as
    /// `expand_chunk` does, if the indexing covers all of them and `depth`
    /// is below the greatest depth; else changes nothing and gives nothing.
    pub fn expand_chunk_checked(&mut self, chunk: &Vec<u64>, depth: u8, at_max: bool) -> (opened:
        Option<Vec<u64>>)
        requires
            old(self).wf(),
        ensures
            final(self).wf(),
            opened is Some <==> all_indexable::<S>(chunk@) && depth < S::MAX_SLICES,
            opened matches Some(next) ==> (final(self).state(), next@) == expanded::<S>(
                old(self).state(),
                chunk@,
                depth as int,
                at_max,
                chunk@.len() as int,
            ) && all_indexable::<S>(next@) && (at_max ==> next@.len() == 0),
            opened is None ==> final(self).state() == old(self).state(),
    {
        if depth < S::MAX_SLICES && Self::accepts_all(chunk) {
            Some(self.expand_chunk(chunk, depth, at_max))
        } else {
            None
        }
    }

    /// The name of the file that holds the table.
    pub fn get_file_name() -> (name: String)
        ensures
            name@ == "slice_count_tables/table_"@ + S::NAME@ + ".bin"@,
    {
        let mut name: String = String::from_str("slice_count_tables/table_");
        name.append(S::NAME);
        name.append(".bin");
        name
    }
}

/// What the search that keeps its levels in a store waits for.
#[derive(Clone, Copy, Debug, PartialEq, Eq, Structural)]
pub enum Phase {
    /// Nothing was done yet.
    Fresh,
    /// The first level is being written.
    Seeding,
    /// A chunk of the level was asked for.
    Reading,
    /// A chunk of the next level is being written.
    Writing,
    /// The store of the level that was read out is being discarded.
    Discarding,
    /// The store of the last level is being discarded.
    Finishing,
    /// The table is done.
    Finished,
    /// The surroundings did not keep to the order, or handed in what no
    /// search wrote.
    Failed,
}

/// What the surroundings report to the search.
pub enum Event {
    /// The search may begin.
    Begin,
    /// The next block of bytes of the store that is read; empty at its end.
    Chunk(Vec<u8>),
    /// The bytes were appended to the store.
    Written,
    /// The store was discarded.
    Discarded,
}

/// What the search asks of the surroundings.
pub enum Action {
    /// Read the next block of the store of the level `depth`.
    Read { depth: u8 },
    /// Append the bytes to the store of the level `depth`.
    Write { depth: u8, bytes: Vec<u8> },
    /// Discard the store of the level `depth`.
    Discard { depth: u8 },
    /// Nothing more: the table is done.
    Done,
    /// Nothing more: the search failed.
    Failed,
}

/// The level at which the surroundings are asked to read, write or discard;
/// minus one where they are asked for none of these.
pub open spec fn action_depth(action: Action) -> int {
    match action {
        Action::Read { depth } => depth as int,
        Action::Write { depth, bytes } => depth as int,
        Action::Discard { depth } => depth as int,
        _ => -1,
    }
}

/// The bytes that the surroundings are asked to write; none where they are
/// asked for something else.
pub open spec fn action_bytes(action: Action) -> Seq<u8> {
    match action {
        Action::Write { depth, bytes } => bytes@,
        _ => Seq::empty(),
    }
}

/// The table after the search went one step on from every configuration of
/// `values` at `depth`, and the configurations that it reached first.
pub open spec fn level_expanded<S: State>(t: Filled, values: Seq<u64>, depth: int) -> (
    Filled,
    Seq<u64>,
) {
    expanded::<S>(t, values, depth, depth == S::MAX_SLICES - 1, values.len() as int)
}

/// Every level of the search that goes on from `closed` at `depth` holds no
/// more configurations than a store can count.
pub open spec fn countable<S: State>(t: Filled, closed: Seq<u64>, depth: int) -> bool
    decreases S::MAX_SLICES - depth,
{
    if closed.len() == 0 || t.1 == S::SIZE || depth >= S::MAX_SLICES {
        true
    } else {
        let e = level_expanded::<S>(t, closed, depth);
        e.1.len() <= usize::MAX && countable::<S>(e.0, e.1, depth + 1)
    }
}

/// A level that is read in two parts gives the table and the next level
/// that the whole level gives.
pub proof fn lemma_level_parts<S: State>(t: Filled, first: Seq<u64>, rest: Seq<u64>, depth: int)
    ensures
        level_expanded::<S>(t, first + rest, depth) == ({
            let a = level_expanded::<S>(t, first, depth);
            let b = level_expanded::<S>(a.0, rest, depth);
            (b.0, a.1 + b.1)
        }),
{
    lemma_expanded_in_chunks::<S>(t, first, rest, depth, depth == S::MAX_SLICES - 1);
}

/// The report is the one that the search waits for.
pub open spec fn awaited(phase: Phase, event: Event) -> bool {
    match (phase, event) {
        (Phase::Fresh, Event::Begin) => true,
        (Phase::Seeding, Event::Written) => true,
        (Phase::Reading, Event::Chunk(_)) => true,
        (Phase::Writing, Event::Written) => true,
        (Phase::Discarding, Event::Discarded) => true,
        (Phase::Finishing, Event::Discarded) => true,
        _ => false,
    }
}

/// The search that keeps its levels in a store: it asks the surroundings to
/// write and read the levels, and takes one report at a time.
pub struct CompactSearch<S: State> {
    pub table: SliceCountTable<S>,
    pub slice_depth: u8,
    pub closed: PosTable,
    pub opened: PosTable,
    pub phase: Phase,
}

impl<S: State> CompactSearch<S> {
    /// The table is well formed and the depth is one that the search
    /// reaches; while a level is read, the depth is below the greatest, and
    /// the last level leaves nothing to go on from.
    pub open spec fn wf(&self) -> bool {
        &&& self.phase != Phase::Fresh && self.phase != Phase::Failed && self.phase
            != Phase::Finished ==> self.table.wf()
        &&& self.phase == Phase::Fresh ==> self.table.table@ == empty_table::<S>()
            && self.table.filled == 0
        &&& 1 <= self.slice_depth <= S::MAX_SLICES
        &&& (self.phase == Phase::Reading || self.phase == Phase::Writing || self.phase
            == Phase::Discarding) ==> self.slice_depth < S::MAX_SLICES && (self.slice_depth
            == S::MAX_SLICES - 1 ==> self.opened.index == 0)
        &&& (self.phase == Phase::Seeding || self.phase == Phase::Finishing) ==> (self.slice_depth
            == S::MAX_SLICES ==> self.closed.index == 0)
        &&& self.phase == Phase::Finished ==> table_settled::<S>(self.table.state())
        &&& self.phase == Phase::Finished && self.table.filled == S::SIZE ==> forall|i: int|
            0 <= i < S::SIZE ==> #[trigger] entry(self.table.table@, i) <= S::MAX_SLICES
    }

    /// A search that has not begun.
    pub fn new() -> (search: Self)
        ensures
            search.wf(),
            search.phase == Phase::Fresh,
    {
        proof {
            S::lemma_scheme();
        }
        Self {
            table: SliceCountTable::new(),
            slice_depth: 1,
            closed: PosTable::new("closed", 0),
            opened: PosTable::new("closed", 1),
            phase: Phase::Fresh,
        }
    }

    /// Begins the search: the first level is the solved configuration.
    fn begin(&mut self) -> (action: Action)
        requires
            old(self).wf(),
            old(self).phase == Phase::Fresh,
        ensures
            final(self).wf(),
            final(self).phase == Phase::Seeding,
            final(self).table.state() == started::<S>().0,
            final(self).slice_depth == 1,
            final(self).closed.index == 1,
            action is Write,
            action_depth(action) == 0,
            action_bytes(action) == store_bytes(started::<S>().1),
    {
        proof {
            S::lemma_scheme();
        }
        let first: Vec<u64> = self.table.start();
        self.closed = PosTable::new("closed", 0);
        let bytes: Vec<u8> = self.closed.write_chunk(&first);
        self.slice_depth = 1;
        self.phase = Phase::Seeding;
        Action::Write { depth: 0, bytes }
    }

    /// Goes on to the next level if there is one and the table is not full,
    /// and else ends the search.
    fn open_level(&mut self) -> (action: Action)
        requires
            old(self).table.wf(),
            1 <= old(self).slice_depth <= S::MAX_SLICES,
            old(self).slice_depth == S::MAX_SLICES ==> old(self).closed.index == 0,
        ensures
            final(self).wf(),
            final(self).table == old(self).table,
            final(self).slice_depth == old(self).slice_depth,
            final(self).closed.index == old(self).closed.index,
            action_depth(action) == old(self).slice_depth - 1,
            old(self).closed.index != 0 && old(self).table.filled != S::SIZE ==> action is Read
                && final(self).phase == Phase::Reading && final(self).opened.index == 0,
            old(self).closed.index == 0 || old(self).table.filled == S::SIZE ==> action is Discard
                && final(self).phase == Phase::Finishing,
    {
        proof {
            S::lemma_scheme();
        }
        if !self.closed.is_empty() && !self.table.table_is_full() {
            self.opened = PosTable::new("closed", self.slice_depth);
            self.phase = Phase::Reading;
            Action::Read { depth: self.slice_depth - 1 }
        } else {
            self.phase = Phase::Finishing;
            Action::Discard { depth: self.slice_depth - 1 }
        }
    }

    /// Takes the configurations of a chunk of the level that is read: goes
    /// one step on from each, and gives the bytes of those that were reached
    /// first, for the store of the next level. Gives nothing, and fails,
    /// where the indexing does not cover one of the configurations, which
    /// then leaves the table as it was, or where the store cannot count as
    /// many configurations as were reached.
    pub fn on_chunk(&mut self, values: &Vec<u64>) -> (bytes: Option<Vec<u8>>)
        requires
            old(self).wf(),
            old(self).phase == Phase::Reading,
        ensures
            final(self).wf(),
            final(self).slice_depth == old(self).slice_depth,
            final(self).closed.index == old(self).closed.index,
            bytes is Some <==> all_indexable::<S>(values@) && old(self).opened.index
                + level_expanded::<S>(
                old(self).table.state(),
                values@,
                old(self).slice_depth as int,
            ).1.len() <= usize::MAX,
            all_indexable::<S>(values@) ==> final(self).table.state() == level_expanded::<S>(
                old(self).table.state(),
                values@,
                old(self).slice_depth as int,
            ).0 && all_indexable::<S>(
                level_expanded::<S>(
                    old(self).table.state(),
                    values@,
                    old(self).slice_depth as int,
                ).1,
            ),
            !all_indexable::<S>(values@) ==> final(self).table == old(self).table,
            bytes is Some ==> final(self).phase == Phase::Writing && bytes->0@ == store_bytes(
                level_expanded::<S>(
                    old(self).table.state(),
                    values@,
                    old(self).slice_depth as int,
                ).1,
            ) && final(self).opened.index == old(self).opened.index + level_expanded::<S>(
                old(self).table.state(),
                values@,
                old(self).slice_depth as int,
            ).1.len(),
            bytes is None ==> final(self).phase == Phase::Failed,
    {
        proof {
            S::lemma_scheme();
        }
        if !SliceCountTable::<S>::accepts_all(values) {
            self.phase = Phase::Failed;
            return None;
        }
        let at_max: bool = self.slice_depth == S::MAX_SLICES - 1;
        let next: Vec<u64> = self.table.expand_chunk(values, self.slice_depth, at_max);
        if next.len() > usize::MAX - self.opened.len() {
            self.phase = Phase::Failed;
            return None;
        }
        let bytes: Vec<u8> = self.opened.write_chunk(&next);
        self.phase = Phase::Writing;
        Some(bytes)
    }

    /// Takes a report of the surroundings and says what they do next.
    ///
    /// At the beginning the solved configuration is written as level nought.
    /// Then each level is read block by block. A block holds eight bytes for
    /// each configuration, the lowest first: the search goes one step on
    /// from the configurations that the block holds and asks for those that
    /// were reached first to be written to the next level. The empty block
    /// ends the level: its store is discarded, and the next level is read
    /// if it holds anything and the table is not full; else the search ends,
    /// and fills what is empty where it reached the greatest depth.
    ///
    /// The search fails on a report that it does not wait for, on a block
    /// that does not hold whole configurations or holds one that the
    /// indexing does not cover, and where a store cannot count its
    /// configurations.
    pub fn step(&mut self, event: Event) -> (action: Action)
        requires
            old(self).wf(),
        ensures
            final(self).wf(),
            action is Done <==> final(self).phase == Phase::Finished,
            action is Failed <==> final(self).phase == Phase::Failed,
            !awaited(old(self).phase, event) ==> action is Failed,
            awaited(old(self).phase, event) && !(event is Chunk) ==> !(action is Failed),
            old(self).phase == Phase::Fresh && event is Begin ==> action is Write && action_depth(
                action,
            ) == 0 && action_bytes(action) == store_bytes(started::<S>().1) && final(self).phase
                == Phase::Seeding && final(self).table.state() == started::<S>().0 && final(self).slice_depth == 1 && final(self).closed.index == 1,
            event is Written && (old(self).phase == Phase::Seeding || old(self).phase
                == Phase::Writing) ==> final(self).table == old(self).table && final(self).slice_depth == old(self).slice_depth && final(self).closed.index == old(self).closed.index && action_depth(action) == old(self).slice_depth - 1,
            event is Written && old(self).phase == Phase::Writing ==> action is Read && final(self).phase == Phase::Reading && final(self).opened.index == old(self).opened.index,
            event is Written && old(self).phase == Phase::Seeding ==> if old(self).closed.index
                != 0 && old(self).table.filled != S::SIZE {
                action is Read && final(self).phase == Phase::Reading && final(self).opened.index
                    == 0
            } else {
                action is Discard && final(self).phase == Phase::Finishing
            },
            event is Chunk && old(self).phase == Phase::Reading ==> final(self).slice_depth
                == old(self).slice_depth && final(self).closed.index == old(self).closed.index,
            event is Chunk && old(self).phase == Phase::Reading && event->Chunk_0@.len() % 8 != 0
                ==> action is Failed && final(self).table == old(self).table,
            event is Chunk && old(self).phase == Phase::Reading && event->Chunk_0@.len() == 0
                ==> action is Discard && action_depth(action) == old(self).slice_depth - 1
                && final(self).phase == Phase::Discarding && final(self).table == old(self).table
                && final(self).opened.index == old(self).opened.index,
            event is Chunk && old(self).phase == Phase::Reading && event->Chunk_0@.len() > 0
                && event->Chunk_0@.len() % 8 == 0 ==> ({
                let values = numbers_of(event->Chunk_0@);
                let next = level_expanded::<S>(
                    old(self).table.state(),
                    values,
                    old(self).slice_depth as int,
                );
                &&& action is Failed <==> !all_indexable::<S>(values) || old(self).opened.index
                    + next.1.len() > usize::MAX
                &&& !all_indexable::<S>(values) ==> final(self).table == old(self).table
                &&& all_indexable::<S>(values) ==> final(self).table.state() == next.0
                    && all_indexable::<S>(next.1)
                &&& !(action is Failed) ==> action is Write && action_depth(action) == old(self).slice_depth && action_bytes(action) == store_bytes(next.1) && final(self).phase
                    == Phase::Writing && final(self).opened.index == old(self).opened.index
                    + next.1.len()
            }),
            event is Discarded && old(self).phase == Phase::Discarding ==> final(self).table
                == old(self).table && final(self).slice_depth == old(self).slice_depth + 1
                && final(self).closed.index == old(self).opened.index && action_depth(action)
                == old(self).slice_depth && if old(self).opened.index != 0 && old(self).table.filled != S::SIZE {
                action is Read && final(self).phase == Phase::Reading && final(self).opened.index
                    == 0
            } else {
                action is Discard && final(self).phase == Phase::Finishing
            },
            event is Discarded && old(self).phase == Phase::Finishing ==> action is Done
                && final(self).table.table@ == if old(self).slice_depth == S::MAX_SLICES
                && old(self).table.filled != S::SIZE {
                filled_rest(old(self).table.table@, S::MAX_SLICES as int)
            } else {
                old(self).table.table@
            },
    {
        proof {
            S::lemma_scheme();
        }
        match (self.phase, event) {
            (Phase::Fresh, Event::Begin) => self.begin(),
            (Phase::Seeding, Event::Written) => self.open_level(),
            (Phase::Reading, Event::Chunk(bytes)) => {
                if bytes.len() % 8 != 0 {
                    self.phase = Phase::Failed;
                    return Action::Failed;
                }
                match self.closed.read_chunk(&bytes) {
                    None => {
                        self.phase = Phase::Discarding;
                        Action::Discard { depth: self.slice_depth - 1 }
                    },
                    Some(values) => match self.on_chunk(&values) {
                        Some(bytes) => Action::Write { depth: self.slice_depth, bytes },
                        None => Action::Failed,
                    },
                }
            },
            (Phase::Writing, Event::Written) => {
                self.phase = Phase::Reading;
                Action::Read { depth: self.slice_depth - 1 }
            },
            (Phase::Discarding, Event::Discarded) => {
                self.closed = PosTable { index: self.opened.index, path: self.opened.path.clone() };
                self.slice_depth = self.slice_depth + 1;
                self.open_level()
            },
            (Phase::Finishing, Event::Discarded) => {
                if self.slice_depth == S::MAX_SLICES && !self.table.table_is_full() {
                    self.table.fill_rest();
                } else {
                    proof {
                        lemma_set_count_bounds(self.table.table@, S::SIZE as int);
                    }
                }
                self.phase = Phase::Finished;
                Action::Done
            },
            _ => {
                self.phase = Phase::Failed;
                Action::Failed
            },
        }
    }
}

/// A run of the search with its stores held in memory stands within a
/// level: the level `level` was written as `closed`, its first `k`
/// configurations were read from the table `t` on, and what they reached
/// first was written as `opened`.
pub open spec fn within_level<S: State>(
    search: CompactSearch<S>,
    closed: Seq<u8>,
    opened: Seq<u8>,
    t: Filled,
    level: Seq<u64>,
    k: int,
) -> bool {
    let part = level_expanded::<S>(t, level.take(k), search.slice_depth as int);
    &&& search.wf()
    &&& search.phase == Phase::Reading
    &&& all_indexable::<S>(level)
    &&& closed == store_bytes(level)
    &&& 0 <= k <= level.len()
    &&& search.closed.index == level.len()
    &&& search.table.state() == part.0
    &&& opened == store_bytes(part.1)
    &&& search.opened.index == part.1.len()
    &&& all_indexable::<S>(part.1)
}

impl<S: State> CompactSearch<S> {
    /// Reports a block of whole configurations that the indexing covers, and
    /// gives the bytes that the search asks to write; nothing where the
    /// search failed.
    fn report_block(&mut self, bytes: Vec<u8>, Ghost(values): Ghost<Seq<u64>>) -> (out: Option<
        Vec<u8>,
    >)
        requires
            old(self).wf(),
            old(self).phase == Phase::Reading,
            values.len() > 0,
            bytes@.len() == 8 * values.len(),
            numbers_of(bytes@) == values,
            all_indexable::<S>(values),
        ensures
            final(self).wf(),
            final(self).slice_depth == old(self).slice_depth,
            final(self).closed.index == old(self).closed.index,
            out matches Some(more) ==> final(self).phase == Phase::Writing && final(self).table.state() == level_expanded::<S>(
                old(self).table.state(),
                values,
                old(self).slice_depth as int,
            ).0 && more@ == store_bytes(
                level_expanded::<S>(old(self).table.state(), values, old(self).slice_depth as int).1,
            ) && final(self).opened.index == old(self).opened.index + level_expanded::<S>(
                old(self).table.state(),
                values,
                old(self).slice_depth as int,
            ).1.len() && all_indexable::<S>(
                level_expanded::<S>(old(self).table.state(), values, old(self).slice_depth as int).1,
            ),
            out is None ==> old(self).opened.index + level_expanded::<S>(
                old(self).table.state(),
                values,
                old(self).slice_depth as int,
            ).1.len() > usize::MAX,
    {
        match self.step(Event::Chunk(bytes)) {
            Action::Write { depth, bytes } => Some(bytes),
            _ => None,
        }
    }

    /// Reports that the bytes of a block were written.
    fn report_written(&mut self)
        requires
            old(self).wf(),
            old(self).phase == Phase::Writing,
        ensures
            final(self).wf(),
            final(self).phase == Phase::Reading,
            final(self).table == old(self).table,
            final(self).slice_depth == old(self).slice_depth,
            final(self).closed.index == old(self).closed.index,
            final(self).opened.index == old(self).opened.index,
    {
        let again: Action = self.step(Event::Written);
    }

    /// Reads the next block of a level, of `block` configurations or what is
    /// left of the level, and writes what the search asks for. Gives the
    /// place up to which the level is then read, or nothing where the search
    /// failed.
    fn read_block(
        &mut self,
        closed: &Vec<u8>,
        opened: &mut Vec<u8>,
        read_at: usize,
        block: usize,
        Ghost(t): Ghost<Filled>,
        Ghost(level): Ghost<Seq<u64>>,
        Ghost(k): Ghost<int>,
    ) -> (end: Option<usize>)
        requires
            within_level::<S>(*old(self), closed@, old(opened)@, t, level, k),
            read_at == 8 * k,
            k < level.len(),
            1 <= block <= usize::MAX / 8,
        ensures
            final(self).slice_depth == old(self).slice_depth,
            end matches Some(e) ==> e % 8 == 0 && k < e / 8 <= level.len() && within_level::<S>(
                *final(self),
                closed@,
                final(opened)@,
                t,
                level,
                (e / 8) as int,
            ),
            end is None ==> level_expanded::<S>(t, level, old(self).slice_depth as int).1.len()
                > usize::MAX,
    {
        let ghost d = self.slice_depth as int;
        let ghost before = level_expanded::<S>(t, level.take(k), d);
        proof {
            lemma_store_bytes_len(level);
        }
        let len: usize = closed.len();
        let end: usize = if len - read_at > 8 * block {
            read_at + 8 * block
        } else {
            len
        };
        let ghost k2 = if len - read_at > 8 * block {
            k + block
        } else {
            level.len() as int
        };
        assert(end == 8 * k2);
        let bytes: Vec<u8> = slice_to_vec(slice_subrange(closed.as_slice(), read_at, end));
        let ghost values = level.subrange(k, k2);
        let ghost reached = level_expanded::<S>(before.0, values, d);
        proof {
            lemma_numbers_of_block(level, k, k2);
            assert(bytes@.len() == 8 * (k2 - k));
            lemma_level_parts::<S>(t, level.take(k), values, d);
            assert(level.take(k) + values =~= level.take(k2));
            lemma_level_parts::<S>(t, level.take(k2), level.skip(k2), d);
            assert(level.take(k2) + level.skip(k2) =~= level);
            assert forall|i: int| 0 <= i < values.len() implies S::indexable(
                unpacked(#[trigger] values[i] as nat, 16),
            ) by {
                assert(values[i] == level[k + i]);
            }
            lemma_store_bytes_joined(before.1, reached.1);
        }
        match self.report_block(bytes, Ghost(values)) {
            Some(written) => {
                let mut more: Vec<u8> = written;
                opened.append(&mut more);
                self.report_written();
                proof {
                    let joined = before.1 + reached.1;
                    assert forall|i: int| 0 <= i < joined.len() implies S::indexable(
                        unpacked(#[trigger] joined[i] as nat, 16),
                    ) by {
                        if i >= before.1.len() {
                            assert(joined[i] == reached.1[i - before.1.len()]);
                        }
                    }
                }
                Some(end)
            },
            None => None,
        }
    }

    /// Ends a level that was read to its end: reports the empty block and
    /// that the store was discarded. Says whether the next level is read.
    fn end_level(
        &mut self,
        Ghost(closed): Ghost<Seq<u8>>,
        Ghost(opened): Ghost<Seq<u8>>,
        Ghost(t): Ghost<Filled>,
        Ghost(level): Ghost<Seq<u64>>,
    ) -> (reading: bool)
        requires
            within_level::<S>(*old(self), closed, opened, t, level, level.len() as int),
        ensures
            final(self).wf(),
            final(self).slice_depth == old(self).slice_depth + 1,
            final(self).table.state() == level_expanded::<S>(
                t,
                level,
                old(self).slice_depth as int,
            ).0,
            level_expanded::<S>(t, level, old(self).slice_depth as int).1.len() <= usize::MAX,
            reading ==> within_level::<S>(
                *final(self),
                opened,
                Seq::empty(),
                level_expanded::<S>(t, level, old(self).slice_depth as int).0,
                level_expanded::<S>(t, level, old(self).slice_depth as int).1,
                0,
            ) && level_expanded::<S>(t, level, old(self).slice_depth as int).1.len() > 0
                && final(self).table.filled != S::SIZE,
            !reading ==> final(self).phase == Phase::Finishing && (level_expanded::<S>(
                t,
                level,
                old(self).slice_depth as int,
            ).1.len() == 0 || final(self).table.filled == S::SIZE),
    {
        proof {
            S::lemma_scheme();
            assert(level.take(level.len() as int) =~= level);
        }
        let ghost whole = level_expanded::<S>(t, level, self.slice_depth as int);
        let answer: Action = self.step(Event::Chunk(Vec::new()));
        let next: Action = self.step(Event::Discarded);
        proof {
            assert(whole.1.take(0) =~= Seq::<u64>::empty());
            lemma_store_bytes_len(Seq::<u64>::empty());
        }
        match next {
            Action::Read { depth } => true,
            _ => false,
        }
    }

    /// Runs the search with its stores held in memory: hands every report
    /// to `step` and does what it asks, and reads each level back from the
    /// bytes that were written for it, `block` configurations at a time.
    /// Whatever the size of the blocks, the table is the one that the
    /// search in memory gives. Gives nothing where a level holds more
    /// configurations than a store can count.
    pub fn run_in_memory(block: usize) -> (table: Option<SliceCountTable<S>>)
        requires
            1 <= block <= usize::MAX / 8,
        ensures
            table is Some <==> countable::<S>(started::<S>().0, started::<S>().1, 1),
            table matches Some(done) ==> done.table@ == generated::<S>(),
    {
        let ghost start = started::<S>();
        proof {
            S::lemma_scheme();
            lemma_solved();
            lemma_unpack_packed(solved_pieces());
            crate::square1::lemma_packed_bound(solved_pieces());
            crate::square1::lemma_pow16_16();
            assert(all_indexable::<S>(start.1));
        }
        let mut search: Self = Self::new();
        let first: Action = search.step(Event::Begin);
        let mut closed: Vec<u8> = match first {
            Action::Write { depth, bytes } => bytes,
            _ => {
                return None;
            },
        };
        let mut opened: Vec<u8> = Vec::new();
        let at_first: Action = search.step(Event::Written);
        let mut reading: bool = match at_first {
            Action::Read { depth } => true,
            _ => false,
        };
        let mut read_at: usize = 0;
        let ghost mut t: Filled = start.0;
        let ghost mut level: Seq<u64> = start.1;
        let ghost mut k: int = 0;
        proof {
            assert(level.take(0) =~= Seq::<u64>::empty());
            lemma_store_bytes_len(Seq::<u64>::empty());
            assert(opened@ =~= Seq::<u8>::empty());
        }
        while reading
            invariant
                search.wf(),
                1 <= block <= usize::MAX / 8,
                2 <= S::MAX_SLICES <= 14,
                start == started::<S>(),
                reading ==> {
                    &&& within_level::<S>(search, closed@, opened@, t, level, k)
                    &&& search.slice_depth < S::MAX_SLICES
                    &&& level.len() > 0
                    &&& t.1 != S::SIZE
                    &&& read_at == 8 * k
                    &&& searched::<S>(start.0, start.1, 1) == searched::<S>(
                        t,
                        level,
                        search.slice_depth as int,
                    )
                    &&& countable::<S>(start.0, start.1, 1) == countable::<S>(
                        t,
                        level,
                        search.slice_depth as int,
                    )
                },
                !reading ==> {
                    &&& search.phase == Phase::Finishing
                    &&& searched::<S>(start.0, start.1, 1) == (
                        search.table.state(),
                        search.slice_depth as int,
                    )
                    &&& countable::<S>(start.0, start.1, 1)
                },
            decreases
                    if reading {
                        1int
                    } else {
                        0int
                    },
                    S::MAX_SLICES - search.slice_depth,
                    level.len() - k,
        {
            let ghost d = search.slice_depth as int;
            let ghost whole = level_expanded::<S>(t, level, d);
            proof {
                lemma_store_bytes_len(level);
            }
            if read_at == closed.len() {
                reading = search.end_level(Ghost(closed@), Ghost(opened@), Ghost(t), Ghost(level));
                proof {
                    assert(searched::<S>(t, level, d) == searched::<S>(whole.0, whole.1, d + 1));
                    assert(countable::<S>(t, level, d) == countable::<S>(whole.0, whole.1, d + 1));
                    t = whole.0;
                    level = whole.1;
                    k = 0;
                }
                closed = opened;
                opened = Vec::new();
                read_at = 0;
            } else {
                match search.read_block(
                    &closed,
                    &mut opened,
                    read_at,
                    block,
                    Ghost(t),
                    Ghost(level),
                    Ghost(k),
                ) {
                    Some(end) => {
                        read_at = end;
                        proof {
                            k = (end / 8) as int;
                        }
                    },
                    None => {
                        return None;
                    },
                }
            }
        }
        let last: Action = search.step(Event::Discarded);
        Some(search.table)
    }
}

/// What the text of a time span of less than a minute is: the name of what
/// `debug_two_places` gives.
pub uninterp spec fn duration_debug(secs: u64, subsec_nanos: u32) -> Seq<char>;

/// A time span as std writes it for debugging, with two decimal places.
/// Makes a `std::time::Duration` of the seconds and nanoseconds and formats
/// it with `{:.2?}`.
#[verifier::external_body]
fn debug_two_places(secs: u64, subsec_nanos: u32) -> (text: String)
    requires
        subsec_nanos < 1_000_000_000,
    ensures
        text@ == duration_debug(secs, subsec_nanos),
{
    format!("{:.2?}", std::time::Duration::new(secs, subsec_nanos))
}

/// The text of a time span of `secs` seconds and `subsec_nanos` nanoseconds.
pub open spec fn duration_text(secs: u64, subsec_nanos: u32) -> Seq<char> {
    let minutes = secs / 60;
    if minutes > 60 {
        decimal((minutes / 60) as nat) + "h "@ + decimal_two_wide((minutes & 60) as nat) + "min"@
    } else if minutes > 0 {
        decimal(minutes as nat) + "min "@ + decimal_two_wide((secs & 60) as nat) + "s"@
    } else {
        duration_debug(secs, subsec_nanos)
    }
}

/// The text of a time span: hours and minutes, minutes and seconds, or what
/// std writes for less than a minute.
pub fn format_duration(secs: u64, subsec_nanos: u32) -> (text: String)
    requires
        subsec_nanos < 1_000_000_000,
    ensures
        text@ == duration_text(secs, subsec_nanos),
{
    let minutes: u64 = secs / 60;
    if minutes > 60 {
        let mut text: String = decimal_string(minutes / 60);
        text.append("h ");
        let rest: String = decimal_string_two_wide(minutes & 60);
        text.append(rest.as_str());
        text.append("min");
        text
    } else if minutes > 0 {
        let mut text: String = decimal_string(minutes);
        text.append("min ");
        let rest: String = decimal_string_two_wide(secs & 60);
        text.append(rest.as_str());
        text.append("s");
        text
    } else {
        debug_two_places(secs, subsec_nanos)
    }
}

} // verus!
