//! Battery banks written as digit strings: picking a fixed number of
//! batteries left to right so that the digits they spell are maximal.

use crate::text::is_digit_seq;
use crate::text::lines_of;
use crate::text::spec_lines;
use vstd::prelude::*;
use vstd::string::StringSliceAdditionalSpecFns;

verus! {

/// Ten to the `k`-th power.
pub open spec fn pow10(k: nat) -> nat
    decreases k,
{
    if k == 0 {
        1
    } else {
        10 * pow10((k - 1) as nat)
    }
}

/// The value and position of the leftmost maximal digit of `s` (the bytes
/// are taken as ASCII digits; an empty sequence yields a zero digit).
pub open spec fn leftmost_max(s: Seq<u8>) -> (int, int)
    decreases s.len(),
{
    if s.len() == 0 {
        (0int, 0int)
    } else {
        let r = leftmost_max(s.drop_last());
        if s.last() - 48 > r.0 {
            ((s.last() - 48) as int, s.len() - 1)
        } else {
            r
        }
    }
}

proof fn lemma_leftmost_max_props(s: Seq<u8>)
    requires
        forall|i: int| 0 <= i < s.len() ==> 48 <= #[trigger] s[i] <= 57,
    ensures
        0 <= leftmost_max(s).0 <= 9,
        0 <= leftmost_max(s).1,
        s.len() > 0 ==> leftmost_max(s).1 < s.len() && leftmost_max(s).0 == s[leftmost_max(s).1]
            - 48,
    decreases s.len(),
{
    if s.len() > 0 {
        lemma_leftmost_max_props(s.drop_last());
    }
}

/// The number the greedy selection spells: starting at `cs`, pick the
/// leftmost maximal digit that still leaves room for the rest, and repeat
/// `rem` times.
pub open spec fn greedy_max(bank: Seq<u8>, cs: int, rem: int) -> int
    decreases rem,
{
    if rem <= 0 {
        0
    } else {
        let r = leftmost_max(bank.subrange(cs, bank.len() - (rem - 1)));
        r.0 * pow10((rem - 1) as nat) + greedy_max(bank, cs + r.1 + 1, rem - 1)
    }
}

proof fn lemma_greedy_max_bounds(bank: Seq<u8>, cs: int, rem: int)
    requires
        forall|i: int| 0 <= i < bank.len() ==> 48 <= #[trigger] bank[i] <= 57,
        0 <= cs,
        0 <= rem,
        cs + rem <= bank.len(),
    ensures
        0 <= greedy_max(bank, cs, rem) < pow10(rem as nat),
    decreases rem,
{
    if rem > 0 {
        let sub = bank.subrange(cs, bank.len() - (rem - 1));
        assert(forall|i: int| 0 <= i < sub.len() ==> 48 <= #[trigger] sub[i] <= 57);
        lemma_leftmost_max_props(sub);
        let r = leftmost_max(sub);
        lemma_greedy_max_bounds(bank, cs + r.1 + 1, rem - 1);
        assert(r.0 * pow10((rem - 1) as nat) + pow10((rem - 1) as nat) <= 10 * pow10(
            (rem - 1) as nat,
        )) by (nonlinear_arith)
            requires
                r.0 <= 9 && pow10((rem - 1) as nat) >= 0,
        ;
        assert(0 <= r.0 * pow10((rem - 1) as nat)) by (nonlinear_arith)
            requires
                r.0 >= 0 && pow10((rem - 1) as nat) >= 0,
        ;
    }
}

/// The leftmost maximal digit of `bank` between `from` (inclusive) and `to`
/// (exclusive): its value and its offset from `from`.
fn left_most_max(bank: &Vec<u8>, from: usize, to: usize) -> (r: (u8, usize))
    requires
        from < to <= bank@.len(),
        forall|i: int| 0 <= i < bank@.len() ==> 48 <= #[trigger] bank@[i] <= 57,
    ensures
        (r.0 as int, r.1 as int) == leftmost_max(bank@.subrange(from as int, to as int)),
        r.1 < to - from,
{
    let mut best: u8 = 0;
    let mut best_i: usize = 0;
    let mut x: usize = 0;
    proof {
        assert(bank@.subrange(from as int, from as int) =~= Seq::<u8>::empty());
    }
    while x < to - from
        invariant
            from < to <= bank@.len(),
            forall|i: int| 0 <= i < bank@.len() ==> 48 <= #[trigger] bank@[i] <= 57,
            x <= to - from,
            (best as int, best_i as int) == leftmost_max(
                bank@.subrange(from as int, from as int + x),
            ),
            x > 0 ==> best_i < x,
            x == 0 ==> best == 0 && best_i == 0,
        decreases to - from - x,
    {
        proof {
            assert(bank@.subrange(from as int, from as int + x + 1).drop_last() =~= bank@.subrange(
                from as int,
                from as int + x,
            ));
            assert(bank@.subrange(from as int, from as int + x + 1).last() == bank@[from as int
                + x]);
        }
        let b = bank[from + x];
        let d = b - 48;
        if d > best {
            best = d;
            best_i = x;
        }
        x = x + 1;
    }
    (best, best_i)
}

/// The largest `n_digits`-digit number that can be spelled by picking
/// batteries left to right from `bank`. This is the greedy selection: for
/// each output position take the leftmost maximal digit that leaves enough
/// batteries for the remaining positions.
pub fn max_joltage(bank: &Vec<u8>, n_digits: usize) -> (r: u64)
    requires
        is_digit_seq(bank@),
        n_digits <= bank@.len(),
        1 <= n_digits <= 19,
    ensures
        r == greedy_max(bank@, 0, n_digits as int),
{
    proof {
        lemma_pow10_19();
    }
    let mut acc: u64 = 0;
    let mut cs: usize = 0;
    let mut rem: usize = n_digits;
    while rem > 0
        invariant
            is_digit_seq(bank@),
            n_digits <= bank@.len(),
            1 <= n_digits <= 19,
            rem <= n_digits,
            cs + rem <= bank@.len(),
            acc < pow10((n_digits - rem) as nat),
            pow10(19) < u64::MAX,
            acc * pow10(rem as nat) + greedy_max(bank@, cs as int, rem as int) == greedy_max(
                bank@,
                0,
                n_digits as int,
            ),
        decreases rem,
    {
        let to = bank.len() - (rem - 1);
        let (v, i) = left_most_max(bank, cs, to);
        proof {
            let sub = bank@.subrange(cs as int, to as int);
            assert(forall|i: int| 0 <= i < sub.len() ==> 48 <= #[trigger] sub[i] <= 57);
            lemma_leftmost_max_props(sub);
            lemma_pow10_mono((n_digits - rem) as nat, 19);
            lemma_pow10_mono((n_digits - rem + 1) as nat, 19);
            assert(pow10((rem) as nat) == 10 * pow10((rem - 1) as nat));
            assert(pow10((n_digits - rem + 1) as nat) == 10 * pow10((n_digits - rem) as nat));
            assert((acc * 10 + v) * pow10((rem - 1) as nat) == acc * (10 * pow10((rem - 1) as nat))
                + v * pow10((rem - 1) as nat)) by (nonlinear_arith);
            assert(acc * 10 + v < 10 * pow10((n_digits - rem) as nat)) by (nonlinear_arith)
                requires
                    acc < pow10((n_digits - rem) as nat) && v <= 9,
            ;
        }
        acc = acc * 10 + (v as u64);
        cs = cs + i + 1;
        rem = rem - 1;
    }
    proof {
        assert(pow10(0) == 1);
        assert(greedy_max(bank@, cs as int, 0) == 0);
        assert(acc * 1 == acc) by (nonlinear_arith);
    }
    acc
}

/// Powers of ten grow with the exponent.
pub proof fn lemma_pow10_mono(a: nat, b: nat)
    requires
        a <= b,
    ensures
        pow10(a) <= pow10(b),
    decreases b,
{
    if a < b {
        lemma_pow10_mono(a, (b - 1) as nat);
        assert(pow10(b) == 10 * pow10((b - 1) as nat));
        assert(pow10((b - 1) as nat) <= 10 * pow10((b - 1) as nat)) by (nonlinear_arith)
            requires
                pow10((b - 1) as nat) >= 0,
        ;
    }
}

/// The largest power of ten a `u64` holds.
pub proof fn lemma_pow10_19()
    ensures
        pow10(19) == 10000000000000000000,
{
    assert(pow10(0) == 1);
    assert(pow10(1) == 10);
    assert(pow10(2) == 100);
    assert(pow10(3) == 1000);
    assert(pow10(4) == 10000);
    assert(pow10(5) == 100000);
    assert(pow10(6) == 1000000);
    assert(pow10(7) == 10000000);
    assert(pow10(8) == 100000000);
    assert(pow10(9) == 1000000000);
    assert(pow10(10) == 10000000000);
    assert(pow10(11) == 100000000000);
    assert(pow10(12) == 1000000000000);
    assert(pow10(13) == 10000000000000);
    assert(pow10(14) == 100000000000000);
    assert(pow10(15) == 1000000000000000);
    assert(pow10(16) == 10000000000000000);
    assert(pow10(17) == 100000000000000000);
    assert(pow10(18) == 1000000000000000000);
    assert(pow10(19) == 10000000000000000000);
}

proof fn lemma_pow10_small()
    ensures
        pow10(2) == 100,
        pow10(12) == 1000000000000,
{
    assert(pow10(0) == 1);
    assert(pow10(1) == 10);
    assert(pow10(2) == 100);
    assert(pow10(3) == 1000);
    assert(pow10(4) == 10000);
    assert(pow10(5) == 100000);
    assert(pow10(6) == 1000000);
    assert(pow10(7) == 10000000);
    assert(pow10(8) == 100000000);
    assert(pow10(9) == 1000000000);
    assert(pow10(10) == 10000000000);
    assert(pow10(11) == 100000000000);
    assert(pow10(12) == 1000000000000);
}

/// The greedy maxima of all banks, summed.
pub open spec fn joltage_sum(banks: Seq<Seq<u8>>, nd: int) -> int
    decreases banks.len(),
{
    if banks.len() == 0 {
        0
    } else {
        greedy_max(banks[0], 0, nd) + joltage_sum(banks.skip(1), nd)
    }
}

proof fn lemma_joltage_sum_bounds(banks: Seq<Seq<u8>>, nd: int)
    requires
        1 <= nd,
        forall|k: int|
            0 <= k < banks.len() ==> is_digit_seq(#[trigger] banks[k]) && nd <= banks[k].len(),
    ensures
        0 <= joltage_sum(banks, nd) <= banks.len() * pow10(nd as nat),
    decreases banks.len(),
{
    if banks.len() > 0 {
        assert(forall|k: int|
            0 <= k < banks.skip(1).len() ==> is_digit_seq(#[trigger] banks.skip(1)[k]) && nd
                <= banks.skip(1)[k].len());
        lemma_joltage_sum_bounds(banks.skip(1), nd);
        lemma_greedy_max_bounds(banks[0], 0, nd);
        assert((banks.len() - 1) * pow10(nd as nat) + pow10(nd as nat) == banks.len() * pow10(
            nd as nat,
        )) by (nonlinear_arith);
    }
}

/// Splits the input into its battery-bank lines.
pub fn parse(input: &str) -> (r: Vec<Vec<u8>>)
    ensures
        r@.map_values(|l: Vec<u8>| l@) =~= spec_lines(input.spec_bytes()),
{
    lines_of(input)
}

fn joltage_total(input: &Vec<Vec<u8>>, n_digits: usize) -> (r: u64)
    requires
        1 <= n_digits <= 19,
        input@.len() * pow10(n_digits as nat) < u64::MAX,
        forall|k: int|
            0 <= k < input@.len() ==> is_digit_seq((#[trigger] input@[k])@) && n_digits
                <= input@[k]@.len(),
    ensures
        r == joltage_sum(input@.map_values(|l: Vec<u8>| l@), n_digits as int),
{
    let ghost banks = input@.map_values(|l: Vec<u8>| l@);
    proof {
        lemma_pow10_19();
        lemma_pow10_mono(n_digits as nat, 19);
        assert(banks.skip(0) =~= banks);
    }
    let mut sum: u64 = 0;
    let mut k: usize = 0;
    while k < input.len()
        invariant
            1 <= n_digits <= 19,
            input@.len() * pow10(n_digits as nat) < u64::MAX,
            banks == input@.map_values(|l: Vec<u8>| l@),
            forall|m: int|
                0 <= m < input@.len() ==> is_digit_seq((#[trigger] input@[m])@) && n_digits
                    <= input@[m]@.len(),
            k <= input@.len(),
            pow10(n_digits as nat) <= pow10(19) < u64::MAX,
            sum + joltage_sum(banks.skip(k as int), n_digits as int) == joltage_sum(
                banks,
                n_digits as int,
            ),
            sum <= (k as int) * pow10(n_digits as nat),
        decreases input@.len() - k,
    {
        proof {
            assert(banks.skip(k as int)[0] == banks[k as int]);
            assert(banks.skip(k as int).skip(1) =~= banks.skip(k as int + 1));
            assert(forall|m: int|
                0 <= m < banks.len() ==> is_digit_seq(#[trigger] banks[m]) && n_digits
                    <= banks[m].len());
            lemma_greedy_max_bounds(banks[k as int], 0, n_digits as int);
            assert((k as int) * pow10(n_digits as nat) + pow10(n_digits as nat) == (k as int + 1)
                * pow10(n_digits as nat)) by (nonlinear_arith);
            assert((k as int + 1) * pow10(n_digits as nat) <= input@.len() * pow10(
                n_digits as nat,
            )) by (nonlinear_arith)
                requires
                    k as int + 1 <= input@.len() && 0 <= pow10(n_digits as nat),
            ;
        }
        let v = max_joltage(&input[k], n_digits);
        sum = sum + v;
        k = k + 1;
    }
    proof {
        assert(banks.skip(banks.len() as int) =~= Seq::<Seq<u8>>::empty());
    }
    sum
}

/// The two-battery joltages of all banks, summed. The bounds are machine
/// limits keeping the total in `u64`; a bank must be all digits and long
/// enough, as the selection reads every position it reserves.
pub fn part_1(input: &Vec<Vec<u8>>) -> (r: u64)
    requires
        input@.len() <= 1000000,
        forall|k: int|
            0 <= k < input@.len() ==> is_digit_seq((#[trigger] input@[k])@) && 2
                <= input@[k]@.len(),
    ensures
        r == joltage_sum(input@.map_values(|l: Vec<u8>| l@), 2),
{
    proof {
        lemma_pow10_small();
    }
    joltage_total(input, 2)
}

/// The twelve-battery joltages of all banks, summed.
pub fn part_2(input: &Vec<Vec<u8>>) -> (r: u64)
    requires
        input@.len() <= 1000000,
        forall|k: int|
            0 <= k < input@.len() ==> is_digit_seq((#[trigger] input@[k])@) && 12
                <= input@[k]@.len(),
    ensures
        r == joltage_sum(input@.map_values(|l: Vec<u8>| l@), 12),
{
    proof {
        lemma_pow10_small();
    }
    joltage_total(input, 12)
}

} // verus!
