//! Calibration values hidden in text lines: the first and last digit of
//! each line form a two-digit number, with spelled-out digit words counting
//! too in the second part.

use crate::text::is_digit;
use crate::text::lines_of;
use crate::text::spec_lines;
use vstd::prelude::*;
use vstd::string::StringSliceAdditionalSpecFns;

verus! {

/// The first ASCII digit of `l`, or -1 when there is none.
pub open spec fn first_digit(l: Seq<u8>) -> int
    decreases l.len(),
{
    if l.len() == 0 {
        -1
    } else if is_digit(l[0]) {
        l[0] - 48
    } else {
        first_digit(l.skip(1))
    }
}

/// The last ASCII digit of `l`, or -1 when there is none.
pub open spec fn last_digit(l: Seq<u8>) -> int
    decreases l.len(),
{
    if l.len() == 0 {
        -1
    } else if is_digit(l.last()) {
        l.last() - 48
    } else {
        last_digit(l.drop_last())
    }
}

/// The calibration values of the lines, summed: first digit times ten plus
/// last digit, per line.
pub open spec fn calib_sum(ls: Seq<Seq<u8>>) -> int
    decreases ls.len(),
{
    if ls.len() == 0 {
        0
    } else {
        first_digit(ls[0]) * 10 + last_digit(ls[0]) + calib_sum(ls.skip(1))
    }
}

/// Splits the input into its lines.
pub fn parse(input: &str) -> (r: Vec<Vec<u8>>)
    ensures
        r@.map_values(|l: Vec<u8>| l@) =~= spec_lines(input.spec_bytes()),
{
    lines_of(input)
}

fn scan_first_digit(l: &Vec<u8>) -> (r: i32)
    ensures
        r == first_digit(l@),
{
    let mut i: usize = 0;
    proof {
        assert(l@.skip(0) =~= l@);
    }
    while i < l.len()
        invariant
            i <= l@.len(),
            first_digit(l@) == first_digit(l@.skip(i as int)),
        decreases l@.len() - i,
    {
        proof {
            assert(l@.skip(i as int)[0] == l@[i as int]);
            assert(l@.skip(i as int).skip(1) =~= l@.skip(i as int + 1));
        }
        let b = l[i];
        if 48 <= b && b <= 57 {
            return (b - 48) as i32;
        }
        i = i + 1;
    }
    -1
}

fn scan_last_digit(l: &Vec<u8>) -> (r: i32)
    ensures
        r == last_digit(l@),
{
    let mut i: usize = l.len();
    proof {
        assert(l@.take(l@.len() as int) =~= l@);
    }
    while i > 0
        invariant
            i <= l@.len(),
            last_digit(l@) == last_digit(l@.take(i as int)),
        decreases i,
    {
        proof {
            assert(l@.take(i as int).last() == l@[i - 1]);
            assert(l@.take(i as int).drop_last() =~= l@.take(i as int - 1));
        }
        let b = l[i - 1];
        if 48 <= b && b <= 57 {
            return (b - 48) as i32;
        }
        i = i - 1;
    }
    -1
}

/// Sums the two-digit calibration values made of each line's first and
/// last ASCII digit. Every line must hold a digit (a line without one has
/// no calibration value), and the line count is capped so that the sum
/// stays within `u32`.
pub fn part_1(input: &Vec<Vec<u8>>) -> (r: u32)
    requires
        input@.len() <= 40000000,
        forall|k: int| 0 <= k < input@.len() ==> first_digit((#[trigger] input@[k])@) >= 0,
    ensures
        r == calib_sum(input@.map_values(|l: Vec<u8>| l@)),
{
    let ghost ls = input@.map_values(|l: Vec<u8>| l@);
    proof {
        assert(ls.skip(0) =~= ls);
    }
    let mut sum: u32 = 0;
    let mut k: usize = 0;
    while k < input.len()
        invariant
            input@.len() <= 40000000,
            ls == input@.map_values(|l: Vec<u8>| l@),
            forall|m: int| 0 <= m < input@.len() ==> first_digit((#[trigger] input@[m])@) >= 0,
            k <= input@.len(),
            sum <= (k as int) * 99,
            sum + calib_sum(ls.skip(k as int)) == calib_sum(ls),
        decreases input@.len() - k,
    {
        proof {
            assert(ls.skip(k as int)[0] == ls[k as int]);
            assert(ls.skip(k as int).skip(1) =~= ls.skip(k as int + 1));
        }
        let f = scan_first_digit(&input[k]);
        let lst = scan_last_digit(&input[k]);
        proof {
            lemma_digit_pair(ls[k as int]);
            assert((k as int) * 99 + 99 == (k as int + 1) * 99) by (nonlinear_arith);
        }
        sum = sum + (f as u32) * 10 + (lst as u32);
        k = k + 1;
    }
    proof {
        assert(ls.skip(ls.len() as int) =~= Seq::<Seq<u8>>::empty());
    }
    sum
}

/// A line with a first digit has a last digit, and both are digits.
proof fn lemma_digit_pair(l: Seq<u8>)
    ensures
        first_digit(l) >= 0 ==> 0 <= first_digit(l) <= 9 && 0 <= last_digit(l) <= 9,
    decreases l.len(),
{
    if l.len() > 0 {
        lemma_digit_pair(l.skip(1));
        lemma_last_digit_range(l);
        if first_digit(l) >= 0 {
            lemma_some_digit_means_last(l);
        }
    }
}

proof fn lemma_last_digit_range(l: Seq<u8>)
    ensures
        last_digit(l) == -1 || 0 <= last_digit(l) <= 9,
    decreases l.len(),
{
    if l.len() > 0 {
        lemma_last_digit_range(l.drop_last());
    }
}

/// If some byte of `l` is a digit, the backward scan finds one.
proof fn lemma_some_digit_means_last(l: Seq<u8>)
    requires
        first_digit(l) >= 0,
    ensures
        last_digit(l) >= 0,
    decreases l.len(),
{
    if l.len() > 0 {
        if is_digit(l.last()) {
        } else if l.len() == 1 {
            assert(l.skip(1).len() == 0);
            assert(first_digit(l.skip(1)) == -1);
            assert(first_digit(l) == -1);
        } else {
            assert(l.drop_last()[0] == l[0]);
            if is_digit(l[0]) {
                lemma_first_digit_of_head(l.drop_last());
            } else {
                assert(first_digit(l) == first_digit(l.skip(1)));
                assert(l.skip(1).drop_last() =~= l.drop_last().skip(1));
                lemma_skip_last_digit(l);
            }
            lemma_some_digit_means_last(l.drop_last());
        }
    }
}

proof fn lemma_first_digit_of_head(l: Seq<u8>)
    requires
        l.len() > 0,
        is_digit(l[0]),
    ensures
        first_digit(l) >= 0,
{
}

proof fn lemma_skip_last_digit(l: Seq<u8>)
    requires
        l.len() > 1,
        !is_digit(l[0]),
        !is_digit(l.last()),
        first_digit(l) >= 0,
    ensures
        first_digit(l.drop_last()) >= 0,
    decreases l.len(),
{
    assert(first_digit(l) == first_digit(l.skip(1)));
    assert(l.drop_last()[0] == l[0]);
    assert(first_digit(l.drop_last()) == first_digit(l.drop_last().skip(1)));
    assert(l.drop_last().skip(1) =~= l.skip(1).drop_last());
    if l.len() == 2 {
        assert(l.skip(1).len() == 1);
        assert(l.skip(1)[0] == l[1]);
        assert(l.skip(1).last() == l.last());
        assert(l.skip(1).skip(1).len() == 0);
        assert(first_digit(l.skip(1).skip(1)) == -1);
        assert(first_digit(l.skip(1)) == -1);
    } else {
        assert(l.skip(1).last() == l.last());
        lemma_first_digit_drop_last(l.skip(1));
    }
}

/// Dropping a non-digit last byte keeps the first digit found.
proof fn lemma_first_digit_drop_last(l: Seq<u8>)
    requires
        l.len() > 1,
        !is_digit(l.last()),
        first_digit(l) >= 0,
    ensures
        first_digit(l.drop_last()) >= 0,
    decreases l.len(),
{
    if is_digit(l[0]) {
        assert(l.drop_last()[0] == l[0]);
    } else {
        assert(first_digit(l) == first_digit(l.skip(1)));
        assert(l.drop_last()[0] == l[0]);
        assert(first_digit(l.drop_last()) == first_digit(l.drop_last().skip(1)));
        assert(l.drop_last().skip(1) =~= l.skip(1).drop_last());
        if l.len() == 2 {
            assert(l.skip(1).len() == 1);
            assert(l.skip(1)[0] == l[1]);
            assert(l.skip(1).last() == l.last());
            assert(l.skip(1).skip(1).len() == 0);
            assert(first_digit(l.skip(1).skip(1)) == -1);
            assert(first_digit(l.skip(1)) == -1);
        } else {
            assert(l.skip(1).last() == l.last());
            lemma_first_digit_drop_last(l.skip(1));
        }
    }
}

/// Whether the digit word `w` is spelled at position `i` of `l`.
pub open spec fn word_at(l: Seq<u8>, i: int, w: Seq<u8>) -> bool {
    0 <= i && i + w.len() <= l.len() && l.subrange(i, i + w.len()) == w
}

/// The digit readable at position `i`: an ASCII digit or a spelled word,
/// or -1 when neither starts there.
pub open spec fn digit_at(l: Seq<u8>, i: int) -> int {
    if 0 <= i < l.len() && is_digit(l[i]) {
        l[i] - 48
    } else if word_at(l, i, seq![111u8, 110u8, 101u8]) {
        1
    } else if word_at(l, i, seq![116u8, 119u8, 111u8]) {
        2
    } else if word_at(l, i, seq![116u8, 104u8, 114u8, 101u8, 101u8]) {
        3
    } else if word_at(l, i, seq![102u8, 111u8, 117u8, 114u8]) {
        4
    } else if word_at(l, i, seq![102u8, 105u8, 118u8, 101u8]) {
        5
    } else if word_at(l, i, seq![115u8, 105u8, 120u8]) {
        6
    } else if word_at(l, i, seq![115u8, 101u8, 118u8, 101u8, 110u8]) {
        7
    } else if word_at(l, i, seq![101u8, 105u8, 103u8, 104u8, 116u8]) {
        8
    } else if word_at(l, i, seq![110u8, 105u8, 110u8, 101u8]) {
        9
    } else {
        -1
    }
}

/// Every digit readable in `l` from position `i` on, in order.
pub open spec fn digits_from(l: Seq<u8>, i: int) -> Seq<int>
    decreases l.len() - i,
{
    if i < 0 || i >= l.len() {
        Seq::empty()
    } else {
        let d = digit_at(l, i);
        if d >= 0 {
            seq![d] + digits_from(l, i + 1)
        } else {
            digits_from(l, i + 1)
        }
    }
}

fn word_check(l: &Vec<u8>, i: usize, w: &[u8]) -> (r: bool)
    requires
        i <= l@.len(),
    ensures
        r == word_at(l@, i as int, w@),
{
    if l.len() - i < w.len() {
        proof {
            assert(!word_at(l@, i as int, w@));
        }
        return false;
    }
    let mut j: usize = 0;
    while j < w.len()
        invariant
            i + w@.len() <= l@.len(),
            l@.len() <= usize::MAX,
            j <= w@.len(),
            forall|m: int| 0 <= m < j ==> l@[i + m] == w@[m],
        decreases w@.len() - j,
    {
        if l[i + j] != w[j] {
            proof {
                assert(l@.subrange(i as int, i as int + w@.len())[j as int] != w@[j as int]);
            }
            return false;
        }
        j = j + 1;
    }
    proof {
        assert(l@.subrange(i as int, i as int + w@.len()) =~= w@);
    }
    true
}

/// The digit readable at position `i` of the line, written as an ASCII
/// digit or spelled as a word, or `None`.
fn get_digit_at(line: &Vec<u8>, i: usize) -> (r: Option<u32>)
    requires
        i <= line@.len(),
    ensures
        match r {
            Some(d) => digit_at(line@, i as int) == d && 1 <= d <= 9 || (d == 0 && digit_at(
                line@,
                i as int,
            ) == 0),
            None => digit_at(line@, i as int) == -1,
        },
{
    if i < line.len() {
        let b = line[i];
        if 48 <= b && b <= 57 {
            return Some((b - 48) as u32);
        }
    }
    if word_check(line, i, &[111u8, 110u8, 101u8]) {
        proof {
            assert(seq![111u8, 110u8, 101u8] =~= [111u8, 110u8, 101u8]@);
        }
        return Some(1);
    }
    if word_check(line, i, &[116u8, 119u8, 111u8]) {
        proof {
            assert(seq![116u8, 119u8, 111u8] =~= [116u8, 119u8, 111u8]@);
        }
        return Some(2);
    }
    if word_check(line, i, &[116u8, 104u8, 114u8, 101u8, 101u8]) {
        proof {
            assert(seq![116u8, 104u8, 114u8, 101u8, 101u8] =~= [
                116u8,
                104u8,
                114u8,
                101u8,
                101u8,
            ]@);
        }
        return Some(3);
    }
    if word_check(line, i, &[102u8, 111u8, 117u8, 114u8]) {
        proof {
            assert(seq![102u8, 111u8, 117u8, 114u8] =~= [102u8, 111u8, 117u8, 114u8]@);
        }
        return Some(4);
    }
    if word_check(line, i, &[102u8, 105u8, 118u8, 101u8]) {
        proof {
            assert(seq![102u8, 105u8, 118u8, 101u8] =~= [102u8, 105u8, 118u8, 101u8]@);
        }
        return Some(5);
    }
    if word_check(line, i, &[115u8, 105u8, 120u8]) {
        proof {
            assert(seq![115u8, 105u8, 120u8] =~= [115u8, 105u8, 120u8]@);
        }
        return Some(6);
    }
    if word_check(line, i, &[115u8, 101u8, 118u8, 101u8, 110u8]) {
        proof {
            assert(seq![115u8, 101u8, 118u8, 101u8, 110u8] =~= [
                115u8,
                101u8,
                118u8,
                101u8,
                110u8,
            ]@);
        }
        return Some(7);
    }
    if word_check(line, i, &[101u8, 105u8, 103u8, 104u8, 116u8]) {
        proof {
            assert(seq![101u8, 105u8, 103u8, 104u8, 116u8] =~= [
                101u8,
                105u8,
                103u8,
                104u8,
                116u8,
            ]@);
        }
        return Some(8);
    }
    if word_check(line, i, &[110u8, 105u8, 110u8, 101u8]) {
        proof {
            assert(seq![110u8, 105u8, 110u8, 101u8] =~= [110u8, 105u8, 110u8, 101u8]@);
        }
        return Some(9);
    }
    None
}

/// Every digit readable in the line, ASCII digits and spelled words alike.
fn str_to_digits(line: &Vec<u8>) -> (r: Vec<u32>)
    ensures
        r@.map_values(|d: u32| d as int) =~= digits_from(line@, 0),
        forall|m: int| 0 <= m < r@.len() ==> #[trigger] r@[m] <= 9,
{
    let mut out: Vec<u32> = Vec::new();
    let mut i: usize = 0;
    while i < line.len()
        invariant
            i <= line@.len(),
            out@.map_values(|d: u32| d as int) + digits_from(line@, i as int) =~= digits_from(
                line@,
                0,
            ),
            forall|m: int| 0 <= m < out@.len() ==> #[trigger] out@[m] <= 9,
        decreases line@.len() - i,
    {
        let ghost prev = out@.map_values(|d: u32| d as int);
        match get_digit_at(line, i) {
            Some(d) => {
                out.push(d);
                proof {
                    assert(out@.map_values(|d: u32| d as int) =~= prev.push(d as int));
                }
            },
            None => {},
        }
        i = i + 1;
    }
    out
}

/// The word-aware calibration values of the lines, summed: for each line,
/// ten times the first readable digit plus the last one.
pub open spec fn calib2_sum(ls: Seq<Seq<u8>>) -> int
    decreases ls.len(),
{
    if ls.len() == 0 {
        0
    } else {
        let ds = digits_from(ls[0], 0);
        ds[0] * 10 + ds.last() + calib2_sum(ls.skip(1))
    }
}

proof fn lemma_digits_from_range(l: Seq<u8>, i: int)
    ensures
        forall|m: int| 0 <= m < digits_from(l, i).len() ==> 0 <= #[trigger] digits_from(l, i)[m]
            <= 9,
    decreases l.len() - i,
{
    if 0 <= i < l.len() {
        lemma_digits_from_range(l, i + 1);
        let d = digit_at(l, i);
        if d >= 0 {
            assert forall|m: int|
                0 <= m < digits_from(l, i).len() implies 0 <= #[trigger] digits_from(l, i)[m]
                <= 9 by {
                if m > 0 {
                    assert(digits_from(l, i)[m] == digits_from(l, i + 1)[m - 1]);
                }
            }
        }
    }
}

/// Sums the word-aware calibration values. Every line must hold a readable
/// digit, and the line count is capped so that the sum stays within `u32`.
pub fn part_2(input: &Vec<Vec<u8>>) -> (r: u32)
    requires
        input@.len() <= 40000000,
        forall|k: int| 0 <= k < input@.len() ==> digits_from((#[trigger] input@[k])@, 0).len() > 0,
    ensures
        r == calib2_sum(input@.map_values(|l: Vec<u8>| l@)),
{
    let ghost ls = input@.map_values(|l: Vec<u8>| l@);
    proof {
        assert(ls.skip(0) =~= ls);
    }
    let mut sum: u32 = 0;
    let mut k: usize = 0;
    while k < input.len()
        invariant
            input@.len() <= 40000000,
            ls == input@.map_values(|l: Vec<u8>| l@),
            forall|m: int|
                0 <= m < input@.len() ==> digits_from((#[trigger] input@[m])@, 0).len() > 0,
            k <= input@.len(),
            sum <= (k as int) * 99,
            sum + calib2_sum(ls.skip(k as int)) == calib2_sum(ls),
        decreases input@.len() - k,
    {
        proof {
            assert(ls.skip(k as int)[0] == ls[k as int]);
            assert(ls.skip(k as int).skip(1) =~= ls.skip(k as int + 1));
        }
        let ds = str_to_digits(&input[k]);
        proof {
            assert(ds@.map_values(|d: u32| d as int).len() == ds@.len());
            lemma_digits_from_range(ls[k as int], 0);
            assert(digits_from(ls[k as int], 0)[0] == ds@.map_values(|d: u32| d as int)[0]);
            assert(digits_from(ls[k as int], 0).last() == ds@.map_values(|d: u32| d as int)[ds@.len()
                - 1]);
            assert((k as int) * 99 + 99 == (k as int + 1) * 99) by (nonlinear_arith);
        }
        let f = ds[0];
        let lst = ds[ds.len() - 1];
        sum = sum + f * 10 + lst;
        k = k + 1;
    }
    proof {
        assert(ls.skip(ls.len() as int) =~= Seq::<Seq<u8>>::empty());
    }
    sum
}

} // verus!
