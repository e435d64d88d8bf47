//! A solution as text: the turns in brackets, a stroke for each slice move
//! between them; of two turns or more, a turn of nothing at the beginning or
//! at the end is left out. No turn at all is the empty text.
use vstd::prelude::*;
use vstd::string::StringExecFns;
use vstd::string::StrSliceExecFns;
use crate::solver::Solution;
use crate::text::{decimal, decimal_string, digit_char};

verus! {

/// Whether a character is white space.
pub open spec fn is_space(c: char) -> bool {
    let n = c as u32;
    (0x09 <= n <= 0x0d) || n == 0x20 || n == 0x85 || n == 0xa0 || n == 0x1680 || (0x2000 <= n
        <= 0x200a) || n == 0x2028 || n == 0x2029 || n == 0x202f || n == 0x205f || n == 0x3000
}

/// The text without its white space.
pub open spec fn without_spaces(text: Seq<char>) -> Seq<char>
    decreases text.len(),
{
    if text.len() == 0 {
        Seq::empty()
    } else if is_space(text.last()) {
        without_spaces(text.drop_last())
    } else {
        without_spaces(text.drop_last()).push(text.last())
    }
}

/// The value of a decimal digit.
pub open spec fn digit_value(c: char) -> Option<int> {
    if c == '0' {
        Some(0)
    } else if c == '1' {
        Some(1)
    } else if c == '2' {
        Some(2)
    } else if c == '3' {
        Some(3)
    } else if c == '4' {
        Some(4)
    } else if c == '5' {
        Some(5)
    } else if c == '6' {
        Some(6)
    } else if c == '7' {
        Some(7)
    } else if c == '8' {
        Some(8)
    } else if c == '9' {
        Some(9)
    } else {
        None
    }
}

/// The position behind the digits that stand from position `pos` on.
pub open spec fn digits_end(t: Seq<char>, pos: int) -> int
    decreases t.len() - pos,
{
    if 0 <= pos < t.len() && digit_value(t[pos]) is Some {
        digits_end(t, pos + 1)
    } else {
        pos
    }
}

/// The number that the digits from position `from` up to position `to`
/// write.
pub open spec fn digits_value(t: Seq<char>, from: int, to: int) -> int
    decreases to - from,
{
    if to <= from {
        0
    } else {
        digits_value(t, from, to - 1) * 10 + digit_value(t[to - 1]).unwrap()
    }
}

/// The number at position `pos`, and the position behind it: minus signs,
/// each of which changes the sign, and the digits behind them.
pub open spec fn num_at(t: Seq<char>, pos: int) -> Option<(int, int)>
    decreases t.len() - pos,
{
    if pos < 0 || pos >= t.len() {
        None
    } else if t[pos] == '-' {
        match num_at(t, pos + 1) {
            Some(found) => Some((-found.0, found.1)),
            None => None,
        }
    } else if digit_value(t[pos]) is Some {
        Some((digits_value(t, pos, digits_end(t, pos)), digits_end(t, pos)))
    } else {
        None
    }
}

/// A number is one that a part of a turn can hold.
pub open spec fn fits_part(x: int) -> bool {
    -128 <= x <= 127
}

/// The turn in brackets at position `pos`, and the position behind it.
pub open spec fn pair_at(t: Seq<char>, pos: int) -> Option<((i8, i8), int)> {
    if 0 <= pos < t.len() && t[pos] == '(' {
        match num_at(t, pos + 1) {
            Some(a) => if fits_part(a.0) && a.1 < t.len() && t[a.1] == ',' {
                match num_at(t, a.1 + 1) {
                    Some(b) => if fits_part(b.0) && b.1 < t.len() && t[b.1] == ')' {
                        Some(((a.0 as i8, b.0 as i8), b.1 + 1))
                    } else {
                        None
                    },
                    None => None,
                }
            } else {
                None
            },
            None => None,
        }
    } else {
        None
    }
}

/// The turns from position `pos` on, which begin with a turn in brackets.
pub open spec fn tuples_at(t: Seq<char>, pos: int) -> Option<Seq<(i8, i8)>>
    decreases t.len() - pos, 1int,
{
    match pair_at(t, pos) {
        Some(found) => if found.1 > pos {
            match strokes_at(t, found.1) {
                Some(rest) => Some(seq![found.0] + rest),
                None => None,
            }
        } else {
            None
        },
        None => None,
    }
}

/// The turns from position `pos` on, which begin with a stroke or are none:
/// a stroke at the end stands for a turn of nothing.
pub open spec fn strokes_at(t: Seq<char>, pos: int) -> Option<Seq<(i8, i8)>>
    decreases t.len() - pos, 0int,
{
    if pos < 0 {
        None
    } else if pos >= t.len() {
        Some(Seq::empty())
    } else if t[pos] == '/' {
        if pos + 1 >= t.len() {
            Some(seq![(0i8, 0i8)])
        } else {
            tuples_at(t, pos + 1)
        }
    } else {
        None
    }
}

/// The turns that a text without white space holds: none for the empty
/// text; a stroke at the beginning stands for a turn of nothing before it,
/// so that a single stroke is two turns of nothing.
pub open spec fn parsed_compact(t: Seq<char>) -> Option<Seq<(i8, i8)>> {
    if t.len() == 0 {
        Some(Seq::empty())
    } else if t[0] == '(' {
        tuples_at(t, 0)
    } else if t[0] == '/' {
        match strokes_at(t, 0) {
            Some(rest) => Some(seq![(0i8, 0i8)] + rest),
            None => None,
        }
    } else {
        None
    }
}

/// The turns that a text holds.
pub open spec fn parsed(text: Seq<char>) -> Option<Seq<(i8, i8)>> {
    parsed_compact(without_spaces(text))
}

/// A number as text, with its sign.
pub open spec fn signed(x: int) -> Seq<char> {
    if x < 0 {
        seq!['-'] + decimal((-x) as nat)
    } else {
        decimal(x as nat)
    }
}

/// A turn in brackets.
pub open spec fn pair_text(p: (i8, i8)) -> Seq<char> {
    seq!['('] + signed(p.0 as int) + seq![','] + signed(p.1 as int) + seq![')']
}

/// The text of the turns from the `i`-th on, a stroke before each; the last
/// is left out if it is a turn of nothing.
pub open spec fn rest_text(s: Seq<(i8, i8)>, i: int) -> Seq<char>
    decreases s.len() - i,
{
    if i >= s.len() || i < 0 {
        Seq::empty()
    } else if i == s.len() - 1 && s[i] == (0i8, 0i8) {
        seq!['/']
    } else {
        seq!['/'] + pair_text(s[i]) + rest_text(s, i + 1)
    }
}

/// The text of a solution: the turns in brackets with a stroke between
/// each two; of two turns or more, the first and the last are left out
/// where they are turns of nothing. No turn gives the empty text.
pub open spec fn formatted(s: Seq<(i8, i8)>) -> Seq<char> {
    if s.len() == 0 {
        Seq::empty()
    } else {
        (if s[0] != (0i8, 0i8) || s.len() < 2 {
            pair_text(s[0])
        } else {
            Seq::empty()
        }) + rest_text(s, 1)
    }
}

/// Whether a character is white space.
pub fn is_whitespace(c: char) -> (r: bool)
    ensures
        r == is_space(c),
{
    let n: u32 = c as u32;
    (0x09 <= n && n <= 0x0d) || n == 0x20 || n == 0x85 || n == 0xa0 || n == 0x1680 || (0x2000
        <= n && n <= 0x200a) || n == 0x2028 || n == 0x2029 || n == 0x202f || n == 0x205f || n
        == 0x3000
}

/// The characters of a text that are no white space.
pub fn compact(text: &str) -> (chars: Vec<char>)
    ensures
        chars@ == without_spaces(text@),
{
    let len: usize = text.unicode_len();
    let mut chars: Vec<char> = Vec::new();
    let mut i: usize = 0;
    assert(text@.take(0).len() == 0);
    while i < len
        invariant
            i <= len,
            len == text@.len(),
            chars@ == without_spaces(text@.take(i as int)),
        decreases len - i,
    {
        let c: char = text.get_char(i);
        proof {
            assert(text@.take(i + 1).drop_last() =~= text@.take(i as int));
            assert(text@.take(i + 1).last() == c);
        }
        if !is_whitespace(c) {
            chars.push(c);
        }
        i += 1;
    }
    assert(text@.take(len as int) =~= text@);
    chars
}

/// A number with its sign as text.
pub fn signed_string(x: i8) -> (text: String)
    ensures
        text@ == signed(x as int),
{
    if x < 0 {
        proof {
            reveal_strlit("-");
        }
        let mut text: String = String::from_str("-");
        let digits: String = decimal_string((-(x as i16)) as u64);
        text.append(digits.as_str());
        assert(text@ =~= signed(x as int));
        text
    } else {
        decimal_string(x as u64)
    }
}

/// Appends a turn in brackets.
fn append_pair(text: &mut String, p: (i8, i8))
    ensures
        final(text)@ == old(text)@ + pair_text(p),
{
    proof {
        reveal_strlit("(");
        reveal_strlit(",");
        reveal_strlit(")");
    }
    text.append("(");
    let up: String = signed_string(p.0);
    text.append(up.as_str());
    text.append(",");
    let down: String = signed_string(p.1);
    text.append(down.as_str());
    text.append(")");
    assert(text@ =~= old(text)@ + pair_text(p));
}

impl Solution {
    /// The solution as text.
    pub fn to_string(&self) -> (text: String)
        ensures
            text@ == formatted(self.notation@),
    {
        let ghost s = self.notation@;
        let len: usize = self.notation.len();
        let mut sequence: String = String::new();
        if len == 0 {
            assert(sequence@ =~= formatted(s));
            return sequence;
        }
        let first: (i8, i8) = self.notation[0];
        if first.0 != 0 || first.1 != 0 || len < 2 {
            append_pair(&mut sequence, first);
        }
        let ghost head = sequence@;
        assert(head =~= if s[0] != (0i8, 0i8) || s.len() < 2 {
            pair_text(s[0])
        } else {
            Seq::<char>::empty()
        });
        if len > 1 {
            let mut i: usize = 1;
            while i < len - 1
                invariant
                    1 <= i <= len - 1,
                    len == s.len(),
                    s == self.notation@,
                    sequence@ + rest_text(s, i as int) == head + rest_text(s, 1),
                decreases len - i,
            {
                let ghost before = sequence@;
                proof {
                    reveal_strlit("/");
                }
                sequence.append("/");
                append_pair(&mut sequence, self.notation[i]);
                proof {
                    assert(rest_text(s, i as int) == seq!['/'] + pair_text(s[i as int])
                        + rest_text(s, i + 1));
                    assert(sequence@ + rest_text(s, i + 1) =~= before + rest_text(s, i as int));
                }
                i += 1;
            }
            let ghost before = sequence@;
            proof {
                reveal_strlit("/");
            }
            sequence.append("/");
            let last: (i8, i8) = self.notation[len - 1];
            if last.0 != 0 || last.1 != 0 {
                append_pair(&mut sequence, last);
            }
            proof {
                assert(rest_text(s, len as int) =~= Seq::<char>::empty());
                assert(sequence@ =~= before + rest_text(s, len - 1));
            }
        } else {
            assert(rest_text(s, 1) =~= Seq::<char>::empty());
            assert(sequence@ =~= head + rest_text(s, 1));
        }
        sequence
    }
}

/// The value of a decimal digit, if the character is one.
fn digit_of(c: char) -> (d: Option<i8>)
    ensures
        match d {
            Some(v) => digit_value(c) == Some(v as int) && 0 <= v <= 9,
            None => digit_value(c) is None,
        },
{
    if c == '0' {
        Some(0)
    } else if c == '1' {
        Some(1)
    } else if c == '2' {
        Some(2)
    } else if c == '3' {
        Some(3)
    } else if c == '4' {
        Some(4)
    } else if c == '5' {
        Some(5)
    } else if c == '6' {
        Some(6)
    } else if c == '7' {
        Some(7)
    } else if c == '8' {
        Some(8)
    } else if c == '9' {
        Some(9)
    } else {
        None
    }
}

/// A number as it is kept while it is read: itself up to a thousand either
/// way, and beyond that one more.
pub open spec fn capped(x: int) -> int {
    if x > 1000 {
        1001
    } else if x < -1000 {
        -1001
    } else {
        x
    }
}

/// The digits up to a position write no less than those before it.
pub proof fn lemma_digits_value_grows(t: Seq<char>, from: int, to: int)
    requires
        0 <= from <= to <= t.len(),
        forall|j: int| from <= j < to ==> digit_value(#[trigger] t[j]) is Some,
    ensures
        0 <= digits_value(t, from, to),
        to > from ==> digits_value(t, from, to - 1) <= digits_value(t, from, to),
    decreases to - from,
{
    if to > from {
        lemma_digits_value_grows(t, from, to - 1);
        assert(digit_value(t[to - 1]) is Some);
    }
}

/// The digits end where the first character stands that is no digit.
pub proof fn lemma_digits_end(t: Seq<char>, pos: int, end: int)
    requires
        0 <= pos <= end <= t.len(),
        forall|j: int| pos <= j < end ==> digit_value(#[trigger] t[j]) is Some,
        end == t.len() || digit_value(t[end]) is None,
    ensures
        digits_end(t, pos) == end,
    decreases end - pos,
{
    if pos < end {
        assert(digit_value(t[pos]) is Some);
        lemma_digits_end(t, pos + 1, end);
    }
}

/// Reads the number at position `pos`: minus signs and digits. Gives the
/// number, capped, and the position behind it.
fn read_number(chars: &Vec<char>, pos: usize) -> (res: Option<(i16, usize)>)
    requires
        pos <= chars@.len(),
    ensures
        match res {
            Some(found) => num_at(chars@, pos as int) matches Some(n) && found.0 == capped(n.0)
                && found.1 == n.1 && pos < found.1 <= chars@.len(),
            None => num_at(chars@, pos as int) is None,
        },
    decreases chars@.len() - pos,
{
    if pos >= chars.len() {
        return None;
    }
    let c: char = chars[pos];
    if c == '-' {
        match read_number(chars, pos + 1) {
            Some(found) => Some((-found.0, found.1)),
            None => None,
        }
    } else {
        match digit_of(c) {
            None => None,
            Some(first) => {
                let ghost t = chars@;
                let mut value: i16 = first as i16;
                let mut i: usize = pos + 1;
                assert(digits_value(t, pos as int, pos as int) == 0);
                assert(digits_value(t, pos as int, pos + 1) == first);
                loop
                    invariant
                        t == chars@,
                        pos < i <= t.len(),
                        forall|j: int| pos <= j < i ==> digit_value(#[trigger] t[j]) is Some,
                        value == capped(digits_value(t, pos as int, i as int)),
                        0 <= digits_value(t, pos as int, i as int),
                    ensures
                        i == t.len() || digit_value(t[i as int]) is None,
                    decreases t.len() - i,
                {
                    if i >= chars.len() {
                        break ;
                    }
                    match digit_of(chars[i]) {
                        None => {
                            break ;
                        },
                        Some(d) => {
                            proof {
                                lemma_digits_value_grows(t, pos as int, i + 1);
                            }
                            let next: i16 = if value > 1000 {
                                1001
                            } else {
                                value * 10 + d as i16
                            };
                            value = if next > 1000 {
                                1001
                            } else {
                                next
                            };
                            i += 1;
                        },
                    }
                }
                proof {
                    lemma_digits_end(t, pos as int, i as int);
                }
                Some((value, i))
            },
        }
    }
}

impl Solution {
    /// Reads a number at position `pos`: minus signs, each of which changes
    /// the sign, and digits. Gives the number and the position behind it;
    /// fails where no number stands or the number is none that a part of a
    /// turn can hold.
    pub fn parse_num(chars: &Vec<char>, pos: usize) -> (res: Result<(i8, usize), ()>)
        requires
            pos <= chars@.len(),
        ensures
            match res {
                Ok(found) => num_at(chars@, pos as int) == Some((found.0 as int, found.1 as int))
                    && pos < found.1 <= chars@.len(),
                Err(_) => num_at(chars@, pos as int) matches Some(n) ==> !fits_part(n.0),
            },
    {
        match read_number(chars, pos) {
            Some(found) => {
                if -128 <= found.0 && found.0 <= 127 {
                    Ok((found.0 as i8, found.1))
                } else {
                    Err(())
                }
            },
            None => Err(()),
        }
    }

    /// Reads the turns from position `pos` on, which begin with a turn in
    /// brackets, and gives them behind the turns of `acc`.
    pub fn parse_tuple(chars: &Vec<char>, pos: usize, acc: Vec<(i8, i8)>) -> (res: Result<
        Vec<(i8, i8)>,
        (),
    >)
        requires
            pos <= chars@.len(),
        ensures
            match res {
                Ok(turns) => tuples_at(chars@, pos as int) matches Some(rest) && turns@ == acc@
                    + rest,
                Err(_) => tuples_at(chars@, pos as int) is None,
            },
        decreases chars@.len() - pos, 1int,
    {
        if pos >= chars.len() || chars[pos] != '(' {
            return Err(());
        }
        let a: (i8, usize) = match Self::parse_num(chars, pos + 1) {
            Ok(found) => found,
            Err(_) => {
                return Err(());
            },
        };
        if a.1 >= chars.len() || chars[a.1] != ',' {
            return Err(());
        }
        let b: (i8, usize) = match Self::parse_num(chars, a.1 + 1) {
            Ok(found) => found,
            Err(_) => {
                return Err(());
            },
        };
        if b.1 >= chars.len() || chars[b.1] != ')' {
            return Err(());
        }
        let mut turns: Vec<(i8, i8)> = acc;
        turns.push((a.0, b.0));
        proof {
            assert(pair_at(chars@, pos as int) == Some(((a.0, b.0), b.1 + 1)));
            assert forall|rest: Seq<(i8, i8)>| turns@ + rest == acc@ + (seq![(a.0, b.0)] + rest) by {
                assert(turns@ + rest =~= acc@ + (seq![(a.0, b.0)] + rest));
            }
        }
        Self::parse_slash(chars, b.1 + 1, turns)
    }

    /// Reads the turns from position `pos` on, which begin with a stroke or
    /// are none, and gives them behind the turns of `acc`.
    pub fn parse_slash(chars: &Vec<char>, pos: usize, acc: Vec<(i8, i8)>) -> (res: Result<
        Vec<(i8, i8)>,
        (),
    >)
        requires
            pos <= chars@.len(),
        ensures
            match res {
                Ok(turns) => strokes_at(chars@, pos as int) matches Some(rest) && turns@ == acc@
                    + rest,
                Err(_) => strokes_at(chars@, pos as int) is None,
            },
        decreases chars@.len() - pos, 0int,
    {
        if pos >= chars.len() {
            assert(acc@ + Seq::<(i8, i8)>::empty() =~= acc@);
            Ok(acc)
        } else if chars[pos] == '/' {
            if pos + 1 >= chars.len() {
                let mut turns: Vec<(i8, i8)> = acc;
                turns.push((0, 0));
                assert(turns@ =~= acc@ + seq![(0i8, 0i8)]);
                Ok(turns)
            } else {
                Self::parse_tuple(chars, pos + 1, acc)
            }
        } else {
            Err(())
        }
    }

    /// Reads a solution from its text; white space counts for nothing, and
    /// the empty text holds no turn.
    pub fn parse(text: &str) -> (res: Result<Solution, ()>)
        ensures
            match res {
                Ok(solution) => parsed(text@) == Some(solution.notation@),
                Err(_) => parsed(text@) is None,
            },
    {
        let chars: Vec<char> = compact(text);
        if chars.len() == 0 {
            return Ok(Solution { notation: Vec::new() });
        }
        let turns: Result<Vec<(i8, i8)>, ()> = if chars[0] == '(' {
            let acc: Vec<(i8, i8)> = Vec::new();
            assert forall|rest: Seq<(i8, i8)>| acc@ + rest == rest by {
                assert(acc@ + rest =~= rest);
            }
            Self::parse_tuple(&chars, 0, acc)
        } else if chars[0] == '/' {
            let mut acc: Vec<(i8, i8)> = Vec::new();
            acc.push((0, 0));
            assert(acc@ =~= seq![(0i8, 0i8)]);
            Self::parse_slash(&chars, 0, acc)
        } else {
            Err(())
        };
        match turns {
            Ok(notation) => Ok(Solution { notation }),
            Err(_) => Err(()),
        }
    }
}

impl core::str::FromStr for Solution {
    type Err = ();

    /// Reads a solution from its text, as `parse` does.
    fn from_str(s: &str) -> (res: Result<Self, ()>)
        ensures
            match res {
                Ok(solution) => parsed(s@) == Some(solution.notation@),
                Err(_) => parsed(s@) is None,
            },
    {
        Solution::parse(s)
    }
}

/// The text holds `x` at position `pos`.
pub open spec fn has_at(t: Seq<char>, pos: int, x: Seq<char>) -> bool {
    0 <= pos && pos + x.len() <= t.len() && t.subrange(pos, pos + x.len()) == x
}

/// White space is taken out of the parts of a text one by one.
pub proof fn lemma_without_spaces_concat(a: Seq<char>, b: Seq<char>)
    ensures
        without_spaces(a + b) == without_spaces(a) + without_spaces(b),
    decreases b.len(),
{
    if b.len() == 0 {
        assert(a + b =~= a);
        assert(without_spaces(a) + without_spaces(b) =~= without_spaces(a));
    } else {
        lemma_without_spaces_concat(a, b.drop_last());
        assert((a + b).drop_last() =~= a + b.drop_last());
        assert((a + b).last() == b.last());
        assert(without_spaces(a) + without_spaces(b.drop_last()).push(b.last()) =~= (
        without_spaces(a) + without_spaces(b.drop_last())).push(b.last()));
    }
}

/// A text of one character that is no white space keeps it.
pub proof fn lemma_without_spaces_one(c: char)
    ensures
        without_spaces(seq![c]) == if is_space(c) {
            Seq::<char>::empty()
        } else {
            seq![c]
        },
{
    assert(seq![c].drop_last() =~= Seq::<char>::empty());
    assert(without_spaces(seq![c].drop_last()) =~= Seq::<char>::empty());
    assert(seq![c].last() == c);
    if !is_space(c) {
        assert(Seq::<char>::empty().push(c) =~= seq![c]);
    }
}

/// The digits of a number hold no white space.
pub proof fn lemma_decimal_compact(n: nat)
    ensures
        without_spaces(decimal(n)) == decimal(n),
    decreases n,
{
    if n < 10 {
        lemma_without_spaces_one(digit_char(n as int));
    } else {
        lemma_decimal_compact(n / 10);
        let d = digit_char((n % 10) as int);
        assert(decimal(n).drop_last() =~= decimal(n / 10));
        assert(decimal(n).last() == d);
        assert(!is_space(d));
    }
}

/// A turn in brackets holds no white space.
pub proof fn lemma_pair_compact(p: (i8, i8))
    ensures
        without_spaces(pair_text(p)) == pair_text(p),
{
    lemma_signed_compact(p.0 as int);
    lemma_signed_compact(p.1 as int);
    lemma_without_spaces_one('(');
    lemma_without_spaces_one(',');
    lemma_without_spaces_one(')');
    let a = seq!['('];
    let b = signed(p.0 as int);
    let c = seq![','];
    let d = signed(p.1 as int);
    let e = seq![')'];
    lemma_without_spaces_concat(a, b);
    lemma_without_spaces_concat(a + b, c);
    lemma_without_spaces_concat(a + b + c, d);
    lemma_without_spaces_concat(a + b + c + d, e);
}

/// A number with its sign holds no white space.
pub proof fn lemma_signed_compact(x: int)
    ensures
        without_spaces(signed(x)) == signed(x),
{
    if x < 0 {
        lemma_without_spaces_one('-');
        lemma_decimal_compact((-x) as nat);
        lemma_without_spaces_concat(seq!['-'], decimal((-x) as nat));
    } else {
        lemma_decimal_compact(x as nat);
    }
}

/// The text of the turns behind the first holds no white space.
pub proof fn lemma_rest_compact(s: Seq<(i8, i8)>, i: int)
    requires
        0 <= i,
    ensures
        without_spaces(rest_text(s, i)) == rest_text(s, i),
    decreases s.len() - i,
{
    if i >= s.len() {
    } else if i == s.len() - 1 && s[i] == (0i8, 0i8) {
        lemma_without_spaces_one('/');
    } else {
        lemma_rest_compact(s, i + 1);
        lemma_pair_compact(s[i]);
        lemma_without_spaces_one('/');
        let a = seq!['/'];
        let c = pair_text(s[i]);
        let d = rest_text(s, i + 1);
        lemma_without_spaces_concat(a, c);
        lemma_without_spaces_concat(a + c, d);
    }
}

/// The text of a solution holds no white space.
pub proof fn lemma_formatted_compact(s: Seq<(i8, i8)>)
    ensures
        without_spaces(formatted(s)) == formatted(s),
{
    if s.len() > 0 {
        lemma_rest_compact(s, 1);
        let tail = rest_text(s, 1);
        if s[0] != (0i8, 0i8) || s.len() < 2 {
            lemma_pair_compact(s[0]);
            lemma_without_spaces_concat(pair_text(s[0]), tail);
        } else {
            assert(Seq::<char>::empty() + tail =~= tail);
        }
    }
}

/// The character of a digit has the value of the digit, and is no sign.
pub proof fn lemma_digit_char(d: int)
    requires
        0 <= d <= 9,
    ensures
        digit_value(digit_char(d)) == Some(d),
        digit_char(d) != '-',
{
}

/// The digits of a number are digits and write the number.
pub proof fn lemma_decimal_read(t: Seq<char>, pos: int, n: nat)
    requires
        has_at(t, pos, decimal(n)),
    ensures
        decimal(n).len() >= 1,
        forall|j: int|
            pos <= j < pos + decimal(n).len() ==> digit_value(#[trigger] t[j]) is Some && t[j]
                != '-',
        digits_value(t, pos, pos + decimal(n).len()) == n,
    decreases n,
{
    let text = decimal(n);
    let len = text.len() as int;
    if n < 10 {
        lemma_digit_char(n as int);
        assert(t[pos] == t.subrange(pos, pos + 1)[0]);
        assert(digits_value(t, pos, pos) == 0);
    } else {
        let front = decimal(n / 10);
        let d = digit_char((n % 10) as int);
        assert(text =~= front + seq![d]);
        lemma_has_at_split(t, pos, front, seq![d]);
        lemma_decimal_read(t, pos, n / 10);
        lemma_digit_char((n % 10) as int);
        let last = pos + front.len();
        assert(t[last] == t.subrange(last, last + 1)[0]);
        assert(digits_value(t, pos, last + 1) == digits_value(t, pos, last) * 10
            + digit_value(t[last]).unwrap());
    }
}

/// A number is read back from its text, where no digit follows the text.
pub proof fn lemma_num_at(t: Seq<char>, pos: int, x: int)
    requires
        has_at(t, pos, signed(x)),
        pos + signed(x).len() < t.len(),
        digit_value(t[pos + signed(x).len()]) is None,
    ensures
        num_at(t, pos) == Some((x, pos + signed(x).len())),
        signed(x).len() >= 1,
{
    if x < 0 {
        let digits = decimal((-x) as nat);
        assert(signed(x) =~= seq!['-'] + digits);
        lemma_has_at_split(t, pos, seq!['-'], digits);
        assert(t[pos] == t.subrange(pos, pos + 1)[0]);
        lemma_decimal_read(t, pos + 1, (-x) as nat);
        let end = pos + 1 + digits.len();
        lemma_digits_end(t, pos + 1, end);
        assert(digit_value(t[pos + 1]) is Some && t[pos + 1] != '-');
        assert(num_at(t, pos + 1) == Some((-x, end)));
    } else {
        let digits = decimal(x as nat);
        lemma_decimal_read(t, pos, x as nat);
        let end = pos + digits.len();
        lemma_digits_end(t, pos, end);
        assert(digit_value(t[pos]) is Some && t[pos] != '-');
    }
}

/// A text that holds `a + b` holds `a`, and `b` behind it.
pub proof fn lemma_has_at_split(t: Seq<char>, pos: int, a: Seq<char>, b: Seq<char>)
    requires
        has_at(t, pos, a + b),
    ensures
        has_at(t, pos, a),
        has_at(t, pos + a.len(), b),
{
    let whole = t.subrange(pos, pos + (a + b).len());
    assert(t.subrange(pos, pos + a.len()) =~= whole.subrange(0, a.len() as int));
    assert(whole.subrange(0, a.len() as int) =~= a);
    assert(t.subrange(pos + a.len(), pos + a.len() + b.len()) =~= whole.subrange(
        a.len() as int,
        (a + b).len() as int,
    ));
    assert(whole.subrange(a.len() as int, (a + b).len() as int) =~= b);
}

/// A turn is read back from its text.
pub proof fn lemma_pair_at(t: Seq<char>, pos: int, p: (i8, i8))
    requires
        has_at(t, pos, pair_text(p)),
    ensures
        pair_at(t, pos) == Some((p, pos + pair_text(p).len())),
        pair_text(p).len() >= 5,
{
    let a = seq!['('];
    let b = signed(p.0 as int);
    let c = seq![','];
    let d = signed(p.1 as int);
    let e = seq![')'];
    lemma_has_at_split(t, pos, a + b + c + d, e);
    lemma_has_at_split(t, pos, a + b + c, d);
    lemma_has_at_split(t, pos, a + b, c);
    lemma_has_at_split(t, pos, a, b);
    assert(t[pos] == t.subrange(pos, pos + 1)[0]);
    let comma = pos + 1 + b.len();
    assert(t[comma] == t.subrange(comma, comma + 1)[0]);
    let close = comma + 1 + d.len();
    assert(t[close] == t.subrange(close, close + 1)[0]);
    lemma_num_at(t, pos + 1, p.0 as int);
    lemma_num_at(t, comma + 1, p.1 as int);
}

/// The turns from a written turn on are read back from their text.
pub proof fn lemma_tuples_at(t: Seq<char>, pos: int, s: Seq<(i8, i8)>, i: int)
    requires
        0 <= i < s.len(),
        0 <= pos <= t.len(),
        t.skip(pos) == pair_text(s[i]) + rest_text(s, i + 1),
    ensures
        tuples_at(t, pos) == Some(s.subrange(i, s.len() as int)),
    decreases s.len() - i, 0int,
{
    let n = s.len() as int;
    let pair = pair_text(s[i]);
    let tail = rest_text(s, i + 1);
    assert(t.subrange(pos, pos + (pair + tail).len()) =~= t.skip(pos));
    lemma_has_at_split(t, pos, pair, tail);
    lemma_pair_at(t, pos, s[i]);
    let next = pos + pair.len();
    assert(t.skip(next) =~= tail);
    lemma_strokes_at(t, next, s, i + 1);
    assert(seq![s[i]] + s.subrange(i + 1, n) =~= s.subrange(i, n));
}

/// The turns behind a turn are read back from their text.
pub proof fn lemma_strokes_at(t: Seq<char>, pos: int, s: Seq<(i8, i8)>, i: int)
    requires
        1 <= i <= s.len(),
        0 <= pos <= t.len(),
        t.skip(pos) == rest_text(s, i),
    ensures
        strokes_at(t, pos) == Some(s.subrange(i, s.len() as int)),
    decreases s.len() - i, 1int,
{
    let n = s.len() as int;
    if i >= n {
        assert(t.skip(pos).len() == 0);
        assert(s.subrange(i, n) =~= Seq::<(i8, i8)>::empty());
    } else if i == n - 1 && s[i] == (0i8, 0i8) {
        assert(t.skip(pos).len() == 1);
        assert(t[pos] == t.skip(pos)[0]);
        assert(s.subrange(i, n) =~= seq![(0i8, 0i8)]);
    } else {
        let pair = pair_text(s[i]);
        let tail = rest_text(s, i + 1);
        assert(rest_text(s, i) =~= seq!['/'] + (pair + tail));
        assert(t[pos] == t.skip(pos)[0]);
        let whole = seq!['/'] + (pair + tail);
        assert(t.skip(pos) == whole);
        assert(t.len() - pos == whole.len());
        assert forall|j: int| 0 <= j < (pair + tail).len() implies t.skip(pos + 1)[j] == (pair
            + tail)[j] by {
            assert(t.skip(pos + 1)[j] == t.skip(pos)[j + 1]);
            assert(whole[j + 1] == (pair + tail)[j]);
        }
        assert(t.skip(pos + 1) =~= pair + tail);
        lemma_tuples_at(t, pos + 1, s, i);
    }
}

/// A text whose first turn is written is read back.
pub proof fn lemma_round_trip_written(s: Seq<(i8, i8)>)
    requires
        s.len() >= 1,
        s[0] != (0i8, 0i8) || s.len() < 2,
    ensures
        parsed_compact(formatted(s)) == Some(s),
{
    let t = formatted(s);
    let pair = pair_text(s[0]);
    assert(t.skip(0) =~= t);
    assert(pair[0] == '(');
    assert(t[0] == pair[0]);
    lemma_tuples_at(t, 0, s, 0);
    assert(s.subrange(0, s.len() as int) =~= s);
}

/// A text whose first turn is left out is read back.
pub proof fn lemma_round_trip_left_out(s: Seq<(i8, i8)>)
    requires
        s.len() >= 2,
        s[0] == (0i8, 0i8),
    ensures
        parsed_compact(formatted(s)) == Some(s),
{
    let n = s.len() as int;
    let t = formatted(s);
    let tail = rest_text(s, 1);
    assert(t =~= tail);
    assert(t.skip(0) =~= t);
    assert(t.len() >= 1 && t[0] == '/') by {
        if n == 2 && s[1] == (0i8, 0i8) {
        } else {
            assert(tail =~= seq!['/'] + pair_text(s[1]) + rest_text(s, 2));
        }
    }
    lemma_strokes_at(t, 0, s, 1);
    assert(seq![(0i8, 0i8)] + s.subrange(1, n) =~= s);
}

/// Reading the text of a solution gives the solution back, whatever turns
/// it holds and however many.
pub proof fn lemma_round_trip(s: Seq<(i8, i8)>)
    ensures
        parsed(formatted(s)) == Some(s),
{
    lemma_formatted_compact(s);
    if s.len() == 0 {
        assert(s =~= Seq::<(i8, i8)>::empty());
    } else if s[0] != (0i8, 0i8) || s.len() < 2 {
        lemma_round_trip_written(s);
    } else {
        lemma_round_trip_left_out(s);
    }
}

} // verus!
