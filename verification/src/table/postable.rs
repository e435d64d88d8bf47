//! The store of a search level that does not fit into memory: a file of
//! configurations, written chunk by chunk and read back in the same order.
//! This module keeps the account of the store and turns chunks into bytes
//! and back; the file itself is the caller's. In the file each
//! configuration takes eight bytes, the lowest first: where the machine
//! keeps its numbers the other way round, the bytes are set right here.
use vstd::prelude::*;
use vstd::slice::slice_subrange;
use vstd::string::StringExecFns;
use crate::text::{decimal, decimal_string};

verus! {

/// The number of bytes that are read from a store at a time.
pub const BUFFER_SIZE: usize = 100_000_000;

/// The eight bytes of a number, the lowest first.
pub open spec fn low_first(value: u64) -> Seq<u8> {
    Seq::new(8, |i: int| ((value >> ((8 * i) as u64)) & 0xff) as u8)
}

/// The eight bytes of a number, the highest first.
pub open spec fn high_first(value: u64) -> Seq<u8> {
    Seq::new(8, |i: int| ((value >> ((8 * (7 - i)) as u64)) & 0xff) as u8)
}

/// The eight bytes hold the number, in one byte order or the other.
pub open spec fn holds(bytes: Seq<u8>, value: u64) -> bool {
    bytes == low_first(value) || bytes == high_first(value)
}

/// The bytes of the given numbers, eight for each, all in one byte order.
#[verifier::opaque]
pub open spec fn stored(values: Seq<u64>, lowest_first: bool) -> Seq<u8> {
    Seq::new(
        8 * values.len(),
        |j: int|
            if lowest_first {
                low_first(values[j / 8])[j % 8]
            } else {
                high_first(values[j / 8])[j % 8]
            },
    )
}

/// The bytes of a store that holds the given numbers: eight for each, in
/// their order, the lowest byte of each first.
pub open spec fn store_bytes(values: Seq<u64>) -> Seq<u8> {
    stored(values, true)
}

/// The number that eight bytes hold, the lowest first.
pub open spec fn number_of(eight: Seq<u8>) -> u64 {
    (eight[0] as u64) | ((eight[1] as u64) << 8) | ((eight[2] as u64) << 16) | ((eight[3] as u64)
        << 24) | ((eight[4] as u64) << 32) | ((eight[5] as u64) << 40) | ((eight[6] as u64) << 48)
        | ((eight[7] as u64) << 56)
}

/// The numbers that the bytes of a store hold: one for each eight bytes, in
/// their order.
#[verifier::opaque]
pub open spec fn numbers_of(bytes: Seq<u8>) -> Seq<u64> {
    Seq::new((bytes.len() / 8) as nat, |i: int| number_of(bytes.subrange(8 * i, 8 * i + 8)))
}

/// The number that the eight bytes of a number hold is the number.
pub proof fn lemma_number_of_low_first(value: u64)
    ensures
        number_of(low_first(value)) == value,
{
    let b = low_first(value);
    assert(b[0] == ((value >> 0u64) & 0xff) as u8);
    assert(b[1] == ((value >> 8u64) & 0xff) as u8);
    assert(b[2] == ((value >> 16u64) & 0xff) as u8);
    assert(b[3] == ((value >> 24u64) & 0xff) as u8);
    assert(b[4] == ((value >> 32u64) & 0xff) as u8);
    assert(b[5] == ((value >> 40u64) & 0xff) as u8);
    assert(b[6] == ((value >> 48u64) & 0xff) as u8);
    assert(b[7] == ((value >> 56u64) & 0xff) as u8);
    assert(((((value >> 0u64) & 0xff) as u8) as u64) | (((((value >> 8u64) & 0xff) as u8) as u64)
        << 8) | (((((value >> 16u64) & 0xff) as u8) as u64) << 16) | (((((value >> 24u64)
        & 0xff) as u8) as u64) << 24) | (((((value >> 32u64) & 0xff) as u8) as u64) << 32) | (((((
    value >> 40u64) & 0xff) as u8) as u64) << 40) | (((((value >> 48u64) & 0xff) as u8) as u64)
        << 48) | (((((value >> 56u64) & 0xff) as u8) as u64) << 56) == value) by (bit_vector);
}

/// The eight bytes of the number that eight bytes hold are these bytes.
pub proof fn lemma_low_first_number_of(eight: Seq<u8>)
    requires
        eight.len() == 8,
    ensures
        low_first(number_of(eight)) == eight,
{
    let b0 = eight[0];
    let b1 = eight[1];
    let b2 = eight[2];
    let b3 = eight[3];
    let b4 = eight[4];
    let b5 = eight[5];
    let b6 = eight[6];
    let b7 = eight[7];
    let n = number_of(eight);
    assert(n == (b0 as u64) | ((b1 as u64) << 8) | ((b2 as u64) << 16) | ((b3 as u64) << 24) | ((
    b4 as u64) << 32) | ((b5 as u64) << 40) | ((b6 as u64) << 48) | ((b7 as u64) << 56));
    assert(((n >> 0u64) & 0xff) as u8 == b0 && ((n >> 8u64) & 0xff) as u8 == b1 && ((n >> 16u64)
        & 0xff) as u8 == b2 && ((n >> 24u64) & 0xff) as u8 == b3 && ((n >> 32u64) & 0xff) as u8
        == b4 && ((n >> 40u64) & 0xff) as u8 == b5 && ((n >> 48u64) & 0xff) as u8 == b6 && ((n
        >> 56u64) & 0xff) as u8 == b7) by (bit_vector)
        requires
            n == (b0 as u64) | ((b1 as u64) << 8) | ((b2 as u64) << 16) | ((b3 as u64) << 24) | ((
            b4 as u64) << 32) | ((b5 as u64) << 40) | ((b6 as u64) << 48) | ((b7 as u64) << 56),
    ;
    let l = low_first(n);
    assert(l[0] == b0 && l[1] == b1 && l[2] == b2 && l[3] == b3 && l[4] == b4 && l[5] == b5
        && l[6] == b6 && l[7] == b7);
    assert(l =~= eight);
}

/// The bytes of one of the stored numbers are its eight bytes.
pub proof fn lemma_stored_part(values: Seq<u64>, lowest_first: bool, i: int)
    requires
        0 <= i < values.len(),
    ensures
        stored(values, lowest_first).len() == 8 * values.len(),
        stored(values, lowest_first).subrange(8 * i, 8 * i + 8) == if lowest_first {
            low_first(values[i])
        } else {
            high_first(values[i])
        },
{
    reveal(stored);
    let part = stored(values, lowest_first).subrange(8 * i, 8 * i + 8);
    let one = if lowest_first {
        low_first(values[i])
    } else {
        high_first(values[i])
    };
    assert forall|k: int| 0 <= k < 8 implies part[k] == one[k] by {
        assert((8 * i + k) / 8 == i);
        assert((8 * i + k) % 8 == k);
    }
    assert(part =~= one);
}

/// What a store gives back is what was written to it: the numbers that the
/// bytes of the given numbers hold are these numbers, in their order, none
/// lost and none twice.
pub proof fn lemma_numbers_of_stored(values: Seq<u64>)
    ensures
        numbers_of(store_bytes(values)) == values,
        store_bytes(values).len() == 8 * values.len(),
{
    reveal(stored);
    reveal(numbers_of);
    let bytes = store_bytes(values);
    assert(bytes.len() / 8 == values.len());
    assert forall|i: int| 0 <= i < values.len() implies numbers_of(bytes)[i] == values[i] by {
        lemma_stored_part(values, true, i);
        lemma_number_of_low_first(values[i]);
    }
    assert(numbers_of(bytes) =~= values);
}

/// A store holds eight bytes for each of its numbers, and none for none.
pub proof fn lemma_store_bytes_len(values: Seq<u64>)
    ensures
        store_bytes(values).len() == 8 * values.len(),
        values.len() == 0 ==> store_bytes(values) == Seq::<u8>::empty(),
{
    reveal(stored);
    if values.len() == 0 {
        assert(store_bytes(values) =~= Seq::<u8>::empty());
    }
}

/// The bytes of two chunks, one behind the other, are the bytes of the
/// chunks joined.
pub proof fn lemma_store_bytes_joined(first: Seq<u64>, second: Seq<u64>)
    ensures
        store_bytes(first) + store_bytes(second) == store_bytes(first + second),
{
    reveal(stored);
    let a = store_bytes(first);
    let b = store_bytes(second);
    let whole = store_bytes(first + second);
    assert forall|j: int| 0 <= j < whole.len() implies (a + b)[j] == whole[j] by {
        if j < a.len() {
            assert((first + second)[j / 8] == first[j / 8]);
        } else {
            let k = j - a.len();
            assert(j / 8 == first.len() + k / 8);
            assert(j % 8 == k % 8);
            assert((first + second)[j / 8] == second[k / 8]);
        }
    }
    assert(a + b =~= whole);
}

/// The numbers of a block of whole numbers taken from the bytes of a store
/// are the numbers of the store at that place.
pub proof fn lemma_numbers_of_block(values: Seq<u64>, from: int, to: int)
    requires
        0 <= from <= to <= values.len(),
    ensures
        store_bytes(values).len() == 8 * values.len(),
        numbers_of(store_bytes(values).subrange(8 * from, 8 * to)) == values.subrange(from, to),
{
    reveal(stored);
    reveal(numbers_of);
    let bytes = store_bytes(values);
    let block = bytes.subrange(8 * from, 8 * to);
    assert(block.len() / 8 == to - from);
    assert forall|i: int| 0 <= i < to - from implies numbers_of(block)[i] == values[from + i] by {
        assert(block.subrange(8 * i, 8 * i + 8) =~= bytes.subrange(
            8 * (from + i),
            8 * (from + i) + 8,
        ));
        lemma_stored_part(values, true, from + i);
        lemma_number_of_low_first(values[from + i]);
    }
    assert(numbers_of(block) =~= values.subrange(from, to));
}

/// The bytes that hold the given configurations, eight for each, in the
/// byte order of the machine. Calls `bytemuck::cast_slice`, which for a
/// cast from `u64` to `u8` always succeeds and gives the bytes as the
/// numbers lie in memory: eight times as many items, each number with its
/// lowest byte first or each with its highest byte first, as the machine
/// keeps its numbers.
#[verifier::external_body]
fn values_as_bytes(values: &Vec<u64>) -> (bytes: Vec<u8>)
    ensures
        bytes@.len() == 8 * values@.len(),
        bytes@ == stored(values@, true) || bytes@ == stored(values@, false),
{
    bytemuck::cast_slice::<u64, u8>(values.as_slice()).to_vec()
}

/// The configuration that eight bytes hold, in the byte order of the
/// machine. Calls `bytemuck::pod_read_unaligned`, which accepts any eight
/// bytes and reads them as a number lies in memory: with its lowest byte
/// first or with its highest byte first, as the machine keeps its numbers.
#[verifier::external_body]
fn read_value(bytes: &[u8]) -> (value: u64)
    requires
        bytes@.len() == 8,
    ensures
        holds(bytes@, value),
{
    bytemuck::pod_read_unaligned::<u64>(bytes)
}

/// One of the eight bytes of a number, the lowest counted first.
fn byte_at(value: u64, k: usize) -> (byte: u8)
    requires
        k < 8,
    ensures
        byte == low_first(value)[k as int],
{
    let shift: u64 = 8 * (k as u64);
    ((value >> shift) & 0xff) as u8
}

/// Whether the bytes hold each of the numbers with its lowest byte first.
fn is_lowest_first(bytes: &Vec<u8>, values: &Vec<u64>) -> (yes: bool)
    requires
        bytes@.len() == 8 * values@.len(),
    ensures
        yes == (bytes@ == store_bytes(values@)),
{
    reveal(stored);
    let ghost want = store_bytes(values@);
    let len: usize = bytes.len();
    let mut i: usize = 0;
    while i < values.len()
        invariant
            i <= values@.len(),
            bytes@.len() == 8 * values@.len(),
            len == bytes@.len(),
            want == store_bytes(values@),
            forall|j: int| 0 <= j < 8 * i ==> bytes@[j] == want[j],
        decreases values@.len() - i,
    {
        let mut k: usize = 0;
        while k < 8
            invariant
                k <= 8,
                i < values@.len(),
                len == bytes@.len(),
                bytes@.len() == 8 * values@.len(),
                want == store_bytes(values@),
                forall|j: int| 0 <= j < 8 * i + k ==> bytes@[j] == want[j],
            decreases 8 - k,
        {
            reveal(stored);
            assert((8 * i + k) / 8 == i && (8 * i + k) % 8 == k);
            if bytes[8 * i + k] != byte_at(values[i], k) {
                assert(bytes@[8 * i + k] != want[8 * i + k]);
                return false;
            }
            k += 1;
        }
        i += 1;
    }
    assert(bytes@ =~= want);
    true
}

/// The bytes of the given numbers, the lowest byte of each first.
fn lowest_first_bytes(values: &Vec<u64>) -> (bytes: Vec<u8>)
    requires
        8 * values@.len() <= usize::MAX,
    ensures
        bytes@ == store_bytes(values@),
{
    reveal(stored);
    let ghost want = store_bytes(values@);
    let mut bytes: Vec<u8> = Vec::new();
    let mut i: usize = 0;
    while i < values.len()
        invariant
            i <= values@.len(),
            want == store_bytes(values@),
            bytes@.len() == 8 * i,
            forall|j: int| 0 <= j < 8 * i ==> bytes@[j] == want[j],
        decreases values@.len() - i,
    {
        let mut k: usize = 0;
        while k < 8
            invariant
                k <= 8,
                i < values@.len(),
                want == store_bytes(values@),
                bytes@.len() == 8 * i + k,
                forall|j: int| 0 <= j < 8 * i + k ==> bytes@[j] == want[j],
            decreases 8 - k,
        {
            reveal(stored);
            assert((8 * i + k) / 8 == i && (8 * i + k) % 8 == k);
            bytes.push(byte_at(values[i], k));
            k += 1;
        }
        i += 1;
    }
    assert(bytes@ =~= want);
    bytes
}

/// The number that eight bytes hold, the lowest first, where `read` is the
/// number that the machine reads from them in its own byte order.
fn lowest_first_number(eight: &[u8], read: u64) -> (value: u64)
    requires
        eight@.len() == 8,
        holds(eight@, read),
    ensures
        value == number_of(eight@),
{
    let mut k: usize = 0;
    let mut same: bool = true;
    while k < 8
        invariant
            k <= 8,
            eight@.len() == 8,
            same ==> forall|j: int| 0 <= j < k ==> eight@[j] == low_first(read)[j],
            !same ==> eight@ != low_first(read),
        decreases 8 - k,
    {
        if eight[k] != byte_at(read, k) {
            same = false;
        }
        k += 1;
    }
    if same {
        proof {
            assert(eight@ =~= low_first(read));
            lemma_number_of_low_first(read);
        }
        read
    } else {
        (eight[0] as u64) | ((eight[1] as u64) << 8) | ((eight[2] as u64) << 16) | ((
        eight[3] as u64) << 24) | ((eight[4] as u64) << 32) | ((eight[5] as u64) << 40) | ((
        eight[6] as u64) << 48) | ((eight[7] as u64) << 56)
    }
}

/// The name of the file of a store.
pub open spec fn store_path(name: Seq<char>, slice_depth: u8) -> Seq<char> {
    "temp/"@ + name + "_"@ + decimal(slice_depth as nat) + ".bin"@
}

/// The account of a store: where its file lies and how many configurations
/// were written to it.
pub struct PosTable {
    pub index: usize,
    pub path: String,
}

impl PosTable {
    /// The account of a new store, for the level `slice_depth`.
    pub fn new(name: &str, slice_depth: u8) -> (store: Self)
        ensures
            store.index == 0,
            store.path@ == store_path(name@, slice_depth),
    {
        let mut path: String = String::from_str("temp/");
        path.append(name);
        path.append("_");
        let depth: String = decimal_string(slice_depth as u64);
        path.append(depth.as_str());
        path.append(".bin");
        Self { index: 0, path }
    }

    /// Whether nothing was written to the store.
    pub fn is_empty(&self) -> (empty: bool)
        ensures
            empty == (self.index == 0),
    {
        self.index == 0
    }

    /// The number of configurations that were written to the store.
    pub fn len(&self) -> (len: usize)
        ensures
            len == self.index,
    {
        self.index
    }

    /// Takes a chunk into the account and gives the bytes to append to the
    /// file: eight for each configuration, in the order of the chunk, the
    /// lowest byte of each first, whatever the byte order of the machine.
    pub fn write_chunk(&mut self, chunk: &Vec<u64>) -> (bytes: Vec<u8>)
        requires
            old(self).index + chunk@.len() <= usize::MAX,
        ensures
            final(self).index == old(self).index + chunk@.len(),
            final(self).path == old(self).path,
            bytes@ == store_bytes(chunk@),
    {
        self.index = self.index + chunk.len();
        let bytes: Vec<u8> = values_as_bytes(chunk);
        let len: usize = bytes.len();
        assert(8 * chunk@.len() == len);
        if is_lowest_first(&bytes, chunk) {
            bytes
        } else {
            lowest_first_bytes(chunk)
        }
    }

    /// The configurations that a block of bytes read from the file holds, or
    /// nothing at the end of the file, where the block is empty: one for
    /// each eight bytes, in their order, the lowest byte of each first.
    pub fn read_chunk(&self, bytes: &Vec<u8>) -> (chunk: Option<Vec<u64>>)
        requires
            bytes@.len() % 8 == 0,
        ensures
            chunk is None <==> bytes@.len() == 0,
            chunk matches Some(values) ==> values@ == numbers_of(bytes@),
    {
        reveal(numbers_of);
        if bytes.len() == 0 {
            return None;
        }
        let len: usize = bytes.len();
        let count: usize = len / 8;
        let mut values: Vec<u64> = Vec::new();
        let mut i: usize = 0;
        while i < count
            invariant
                i <= count,
                count * 8 == len,
                len == bytes@.len(),
                values@.len() == i,
                forall|j: int| 0 <= j < i ==> #[trigger] values@[j] == numbers_of(bytes@)[j],
            decreases count - i,
        {
            reveal(numbers_of);
            assert(i * 8 + 8 <= count * 8);
            let at: usize = i * 8;
            let eight: &[u8] = slice_subrange(bytes.as_slice(), at, at + 8);
            let read: u64 = read_value(eight);
            values.push(lowest_first_number(eight, read));
            i += 1;
        }
        assert(values@ =~= numbers_of(bytes@));
        Some(values)
    }
}

} // verus!
