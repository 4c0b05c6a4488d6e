//! Sequence extrapolation: repeatedly take pairwise differences until the
//! sequence is all zero, then extend each history one step forward or
//! backward.

use crate::text::is_signed_seq;
use crate::text::lines_of;
use crate::text::parse_i64;
use crate::text::signed_val;
use crate::text::spec_lines;
use crate::text::spec_words;
use crate::text::words_of;
use vstd::prelude::*;
use vstd::string::StringSliceAdditionalSpecFns;

verus! {

/// Two to the `k`-th power.
pub open spec fn pw2(k: nat) -> int
    decreases k,
{
    if k == 0 {
        1
    } else {
        2 * pw2((k - 1) as nat)
    }
}

proof fn lemma_pw2_pos(k: nat)
    ensures
        pw2(k) >= 1,
    decreases k,
{
    if k > 0 {
        lemma_pw2_pos((k - 1) as nat);
    }
}

/// Every value is zero.
pub open spec fn all_zero(s: Seq<int>) -> bool {
    forall|i: int| 0 <= i < s.len() ==> s[i] == 0
}

/// The pairwise differences, one shorter than `s`.
pub open spec fn diffs(s: Seq<int>) -> Seq<int> {
    Seq::new((s.len() - 1) as nat, |i: int| s[i + 1] - s[i])
}

/// The next value of the history: zero once the differences vanish, else
/// the last value plus the extrapolated difference.
pub open spec fn extra_fwd(s: Seq<int>) -> int
    decreases s.len(),
{
    if s.len() == 0 || all_zero(s) {
        0
    } else {
        s.last() + extra_fwd(diffs(s))
    }
}

/// The value before the history's first: zero once the differences vanish,
/// else the first value minus the backward extrapolation of the
/// differences.
pub open spec fn extra_bwd(s: Seq<int>) -> int
    decreases s.len(),
{
    if s.len() == 0 || all_zero(s) {
        0
    } else {
        s[0] - extra_bwd(diffs(s))
    }
}

/// The history is short and its values small enough for the difference
/// pyramid to stay within `i64`. This is a machine limit: each difference
/// level can double the magnitudes.
pub open spec fn history_ok(s: Seq<int>) -> bool {
    s.len() <= 61 && forall|i: int|
        0 <= i < s.len() ==> -pw2((62 - s.len()) as nat) <= #[trigger] s[i] <= pw2(
            (62 - s.len()) as nat,
        )
}

proof fn lemma_diffs_ok(s: Seq<int>)
    requires
        history_ok(s),
        s.len() >= 1,
    ensures
        history_ok(diffs(s)),
{
    let n = s.len() as int;
    assert(pw2((62 - (n - 1)) as nat) == 2 * pw2((62 - n) as nat));
    assert forall|i: int|
        0 <= i < diffs(s).len() implies -pw2((62 - diffs(s).len()) as nat) <= #[trigger] diffs(
        s,
    )[i] <= pw2((62 - diffs(s).len()) as nat) by {
        assert(diffs(s)[i] == s[i + 1] - s[i]);
    }
}

proof fn lemma_extra_bounds(s: Seq<int>)
    requires
        history_ok(s),
    ensures
        -(pw2(62) - pw2((62 - s.len()) as nat)) <= extra_fwd(s) <= pw2(62) - pw2(
            (62 - s.len()) as nat,
        ),
        -(pw2(62) - pw2((62 - s.len()) as nat)) <= extra_bwd(s) <= pw2(62) - pw2(
            (62 - s.len()) as nat,
        ),
    decreases s.len(),
{
    lemma_pw2_pos((62 - s.len()) as nat);
    lemma_pw2_mono((62 - s.len()) as nat, 62);
    if s.len() == 0 || all_zero(s) {
    } else {
        lemma_diffs_ok(s);
        lemma_extra_bounds(diffs(s));
        assert(pw2((62 - (s.len() - 1)) as nat) == 2 * pw2((62 - s.len()) as nat));
        assert(s.last() == s[s.len() - 1]);
    }
}

proof fn lemma_pw2_mono(a: nat, b: nat)
    requires
        a <= b,
    ensures
        pw2(a) <= pw2(b),
    decreases b,
{
    if a < b {
        lemma_pw2_mono(a, (b - 1) as nat);
        lemma_pw2_pos((b - 1) as nat);
    }
}

fn is_all_zero(v: &Vec<i64>) -> (r: bool)
    ensures
        r == all_zero(v@.map_values(|x: i64| x as int)),
{
    let ghost s = v@.map_values(|x: i64| x as int);
    let mut i: usize = 0;
    while i < v.len()
        invariant
            s == v@.map_values(|x: i64| x as int),
            i <= v@.len(),
            forall|j: int| 0 <= j < i ==> s[j] == 0,
        decreases v@.len() - i,
    {
        if v[i] != 0 {
            proof {
                assert(s[i as int] != 0);
            }
            return false;
        }
        i = i + 1;
    }
    true
}

/// The next value of the history, one difference level at a time.
pub fn extrapolate_fordward(history: &Vec<i64>) -> (r: i64)
    requires
        history_ok(history@.map_values(|x: i64| x as int)),
    ensures
        r == extra_fwd(history@.map_values(|x: i64| x as int)),
    decreases history@.len(),
{
    let ghost s = history@.map_values(|x: i64| x as int);
    if history.len() == 0 {
        return 0;
    }
    if is_all_zero(history) {
        return 0;
    }
    let mut d: Vec<i64> = Vec::new();
    let mut i: usize = 0;
    proof {
        lemma_diffs_ok(s);
        lemma_pw2_mono((62 - s.len()) as nat, 62);
        lemma_pw2_small();
    }
    while i < history.len() - 1
        invariant
            s == history@.map_values(|x: i64| x as int),
            history_ok(s),
            1 <= history@.len(),
            i <= history@.len() - 1,
            d@.map_values(|x: i64| x as int) =~= diffs(s).take(i as int),
        decreases history@.len() - 1 - i,
    {
        proof {
            lemma_pw2_mono((62 - s.len()) as nat, 61);
            lemma_pw2_small();
            assert(s[i as int] == history@[i as int] && s[i + 1] == history@[i + 1]);
        }
        let ghost prev = d@.map_values(|x: i64| x as int);
        d.push(history[i + 1] - history[i]);
        proof {
            assert(d@.map_values(|x: i64| x as int) =~= prev.push(diffs(s)[i as int]));
            assert(diffs(s).take(i as int + 1) =~= diffs(s).take(i as int).push(
                diffs(s)[i as int],
            ));
        }
        i = i + 1;
    }
    proof {
        assert(diffs(s).take(diffs(s).len() as int) =~= diffs(s));
    }
    let sub = extrapolate_fordward(&d);
    proof {
        lemma_extra_bounds(diffs(s));
        lemma_pw2_small();
        lemma_pw2_pos((62 - diffs(s).len()) as nat);
        lemma_pw2_mono((62 - s.len()) as nat, 62);
        assert(s.last() == s[s.len() - 1] == history@[history@.len() - 1]);
    }
    history[history.len() - 1] + sub
}

/// The value before the history's first, one difference level at a time.
pub fn extrapolate_backward(history: &Vec<i64>) -> (r: i64)
    requires
        history_ok(history@.map_values(|x: i64| x as int)),
    ensures
        r == extra_bwd(history@.map_values(|x: i64| x as int)),
    decreases history@.len(),
{
    let ghost s = history@.map_values(|x: i64| x as int);
    if history.len() == 0 {
        return 0;
    }
    if is_all_zero(history) {
        return 0;
    }
    let mut d: Vec<i64> = Vec::new();
    let mut i: usize = 0;
    proof {
        lemma_diffs_ok(s);
        lemma_pw2_mono((62 - s.len()) as nat, 62);
        lemma_pw2_small();
    }
    while i < history.len() - 1
        invariant
            s == history@.map_values(|x: i64| x as int),
            history_ok(s),
            1 <= history@.len(),
            i <= history@.len() - 1,
            d@.map_values(|x: i64| x as int) =~= diffs(s).take(i as int),
        decreases history@.len() - 1 - i,
    {
        proof {
            lemma_pw2_mono((62 - s.len()) as nat, 61);
            lemma_pw2_small();
            assert(s[i as int] == history@[i as int] && s[i + 1] == history@[i + 1]);
        }
        let ghost prev = d@.map_values(|x: i64| x as int);
        d.push(history[i + 1] - history[i]);
        proof {
            assert(d@.map_values(|x: i64| x as int) =~= prev.push(diffs(s)[i as int]));
            assert(diffs(s).take(i as int + 1) =~= diffs(s).take(i as int).push(
                diffs(s)[i as int],
            ));
        }
        i = i + 1;
    }
    proof {
        assert(diffs(s).take(diffs(s).len() as int) =~= diffs(s));
    }
    let sub = extrapolate_backward(&d);
    proof {
        lemma_extra_bounds(diffs(s));
        lemma_pw2_small();
        lemma_pw2_pos((62 - diffs(s).len()) as nat);
        lemma_pw2_mono((62 - s.len()) as nat, 62);
        assert(s[0] == history@[0]);
    }
    history[0] - sub
}

proof fn lemma_pw2_small()
    ensures
        pw2(62) == 0x4000000000000000,
        pw2(61) == 0x2000000000000000,
{
    assert(pw2(0) == 1);
    assert(pw2(1) == 2);
    assert(pw2(2) == 4);
    assert(pw2(3) == 8);
    assert(pw2(4) == 0x10);
    assert(pw2(5) == 0x20);
    assert(pw2(6) == 0x40);
    assert(pw2(7) == 0x80);
    assert(pw2(8) == 0x100);
    assert(pw2(9) == 0x200);
    assert(pw2(10) == 0x400);
    assert(pw2(11) == 0x800);
    assert(pw2(12) == 0x1000) by {
        assert(pw2(12) == 2 * pw2(11));
    }
    assert(pw2(13) == 0x2000);
    assert(pw2(14) == 0x4000);
    assert(pw2(15) == 0x8000);
    assert(pw2(16) == 0x10000);
    assert(pw2(17) == 0x20000);
    assert(pw2(18) == 0x40000);
    assert(pw2(19) == 0x80000);
    assert(pw2(20) == 0x100000);
    assert(pw2(21) == 0x200000);
    assert(pw2(22) == 0x400000);
    assert(pw2(23) == 0x800000);
    assert(pw2(24) == 0x1000000);
    assert(pw2(25) == 0x2000000);
    assert(pw2(26) == 0x4000000);
    assert(pw2(27) == 0x8000000);
    assert(pw2(28) == 0x10000000);
    assert(pw2(29) == 0x20000000);
    assert(pw2(30) == 0x40000000);
    assert(pw2(31) == 0x80000000);
    assert(pw2(32) == 0x100000000);
    assert(pw2(33) == 0x200000000);
    assert(pw2(34) == 0x400000000);
    assert(pw2(35) == 0x800000000);
    assert(pw2(36) == 0x1000000000);
    assert(pw2(37) == 0x2000000000);
    assert(pw2(38) == 0x4000000000);
    assert(pw2(39) == 0x8000000000);
    assert(pw2(40) == 0x10000000000);
    assert(pw2(41) == 0x20000000000);
    assert(pw2(42) == 0x40000000000);
    assert(pw2(43) == 0x80000000000);
    assert(pw2(44) == 0x100000000000);
    assert(pw2(45) == 0x200000000000);
    assert(pw2(46) == 0x400000000000);
    assert(pw2(47) == 0x800000000000);
    assert(pw2(48) == 0x1000000000000);
    assert(pw2(49) == 0x2000000000000);
    assert(pw2(50) == 0x4000000000000);
    assert(pw2(51) == 0x8000000000000);
    assert(pw2(52) == 0x10000000000000);
    assert(pw2(53) == 0x20000000000000);
    assert(pw2(54) == 0x40000000000000);
    assert(pw2(55) == 0x80000000000000);
    assert(pw2(56) == 0x100000000000000);
    assert(pw2(57) == 0x200000000000000);
    assert(pw2(58) == 0x400000000000000);
    assert(pw2(59) == 0x800000000000000);
    assert(pw2(60) == 0x1000000000000000);
    assert(pw2(61) == 0x2000000000000000);
    assert(pw2(62) == 0x4000000000000000);
}

/// A history line: whitespace-separated signed numbers.
pub open spec fn history_line_ok(l: Seq<u8>) -> bool {
    let ws = spec_words(l);
    forall|k: int|
        0 <= k < ws.len() ==> is_signed_seq(#[trigger] ws[k]) && i64::MIN <= signed_val(ws[k])
            <= i64::MAX
}

/// The numbers a well-formed history line spells.
pub open spec fn history_of_line(l: Seq<u8>) -> Seq<int> {
    spec_words(l).map_values(|w: Seq<u8>| signed_val(w))
}

/// Reads one history per line: whitespace-separated numbers. A malformed
/// number is skipped within its line.
pub fn parse(input: &str) -> (r: Vec<Vec<i64>>)
    ensures
        ({
            let ls = spec_lines(input.spec_bytes());
            (forall|i: int| 0 <= i < ls.len() ==> history_line_ok(#[trigger] ls[i])) ==> {
                &&& r@.len() == ls.len()
                &&& forall|i: int|
                    0 <= i < ls.len() ==> (#[trigger] r@[i])@.map_values(|x: i64| x as int)
                        =~= history_of_line(ls[i])
            }
        }),
{
    let ghost ls = spec_lines(input.spec_bytes());
    let lines = lines_of(input);
    let mut out: Vec<Vec<i64>> = Vec::new();
    let mut k: usize = 0;
    while k < lines.len()
        invariant
            lines@.map_values(|l: Vec<u8>| l@) =~= ls,
            k <= lines@.len(),
            out@.len() == k,
            (forall|i: int| 0 <= i < k ==> history_line_ok(#[trigger] ls[i])) ==> forall|i: int|
                0 <= i < k ==> (#[trigger] out@[i])@.map_values(|x: i64| x as int)
                    =~= history_of_line(ls[i]),
        decreases lines@.len() - k,
    {
        let words = words_of(lines[k].as_slice());
        let ghost ws = spec_words(ls[k as int]);
        proof {
            assert(lines@[k as int]@ == ls[k as int]);
            assert(words@.map_values(|l: Vec<u8>| l@) =~= ws);
        }
        let mut row: Vec<i64> = Vec::new();
        let mut j: usize = 0;
        while j < words.len()
            invariant
                words@.map_values(|l: Vec<u8>| l@) =~= ws,
                j <= words@.len(),
                (forall|m: int|
                    0 <= m < j ==> is_signed_seq(#[trigger] ws[m]) && i64::MIN <= signed_val(ws[m])
                        <= i64::MAX) ==> row@.map_values(|x: i64| x as int) =~= ws.take(
                    j as int,
                ).map_values(|w: Seq<u8>| signed_val(w)),
            decreases words@.len() - j,
        {
            proof {
                assert(words@[j as int]@ == ws[j as int]);
            }
            match parse_i64(words[j].as_slice()) {
                Some(v) => {
                    let ghost prev = row@.map_values(|x: i64| x as int);
                    row.push(v);
                    proof {
                        assert(row@.map_values(|x: i64| x as int) =~= prev.push(v as int));
                        assert(ws.take(j as int + 1) =~= ws.take(j as int).push(ws[j as int]));
                        if forall|m: int|
                            0 <= m < j + 1 ==> is_signed_seq(#[trigger] ws[m]) && i64::MIN
                                <= signed_val(ws[m]) <= i64::MAX {
                            assert(ws.take(j as int + 1).map_values(|w: Seq<u8>| signed_val(w))
                                =~= ws.take(j as int).map_values(|w: Seq<u8>| signed_val(w)).push(
                                signed_val(ws[j as int]),
                            ));
                        }
                    }
                },
                None => {},
            }
            j = j + 1;
        }
        proof {
            assert(ws.take(ws.len() as int) =~= ws);
        }
        out.push(row);
        k = k + 1;
    }
    out
}

/// The forward extrapolations of all histories, summed.
pub open spec fn fwd_sum(rows: Seq<Seq<int>>) -> int
    decreases rows.len(),
{
    if rows.len() == 0 {
        0
    } else {
        extra_fwd(rows[0]) + fwd_sum(rows.skip(1))
    }
}

/// The backward extrapolations of all histories, summed.
pub open spec fn bwd_sum(rows: Seq<Seq<int>>) -> int
    decreases rows.len(),
{
    if rows.len() == 0 {
        0
    } else {
        extra_bwd(rows[0]) + bwd_sum(rows.skip(1))
    }
}

/// Sums the next value of every history. Every history must satisfy the
/// difference-pyramid bound, the row count is capped, and the total must
/// fit in `i64`; these are machine limits.
pub fn part_1(report: &Vec<Vec<i64>>) -> (r: i64)
    requires
        report@.len() <= 1000000,
        forall|k: int|
            0 <= k < report@.len() ==> history_ok(
                (#[trigger] report@[k])@.map_values(|x: i64| x as int),
            ),
        i64::MIN <= fwd_sum(report@.map_values(|v: Vec<i64>| v@.map_values(|x: i64| x as int)))
            <= i64::MAX,
    ensures
        r == fwd_sum(report@.map_values(|v: Vec<i64>| v@.map_values(|x: i64| x as int))),
{
    let ghost rows = report@.map_values(|v: Vec<i64>| v@.map_values(|x: i64| x as int));
    proof {
        assert(rows.skip(0) =~= rows);
    }
    let mut sum: i128 = 0;
    let mut k: usize = 0;
    while k < report.len()
        invariant
            report@.len() <= 1000000,
            rows == report@.map_values(|v: Vec<i64>| v@.map_values(|x: i64| x as int)),
            forall|m: int|
                0 <= m < report@.len() ==> history_ok(
                    (#[trigger] report@[m])@.map_values(|x: i64| x as int),
                ),
            k <= report@.len(),
            -(k as int) * 0x4000000000000000 <= sum <= (k as int) * 0x4000000000000000,
            sum + fwd_sum(rows.skip(k as int)) == fwd_sum(rows),
        decreases report@.len() - k,
    {
        proof {
            assert(rows.skip(k as int)[0] == rows[k as int]);
            assert(rows.skip(k as int).skip(1) =~= rows.skip(k as int + 1));
            assert(rows[k as int] == report@[k as int]@.map_values(|x: i64| x as int));
            lemma_extra_bounds(rows[k as int]);
            lemma_pw2_small();
            lemma_pw2_pos((62 - rows[k as int].len()) as nat);
            assert((k as int) * 0x4000000000000000 + 0x4000000000000000 == (k as int + 1)
                * 0x4000000000000000) by (nonlinear_arith);
            assert((k as int + 1) * 0x4000000000000000 <= 1000000 * 0x4000000000000000)
                by (nonlinear_arith)
                requires
                    0 <= k as int + 1 <= 1000000,
            ;
        }
        let v = extrapolate_fordward(&report[k]);
        sum = sum + (v as i128);
        k = k + 1;
    }
    proof {
        assert(rows.skip(rows.len() as int) =~= Seq::<Seq<int>>::empty());
    }
    sum as i64
}

/// Sums the value before the first of every history, under the same
/// machine limits as the forward pass.
pub fn part_2(report: &Vec<Vec<i64>>) -> (r: i64)
    requires
        report@.len() <= 1000000,
        forall|k: int|
            0 <= k < report@.len() ==> history_ok(
                (#[trigger] report@[k])@.map_values(|x: i64| x as int),
            ),
        i64::MIN <= bwd_sum(report@.map_values(|v: Vec<i64>| v@.map_values(|x: i64| x as int)))
            <= i64::MAX,
    ensures
        r == bwd_sum(report@.map_values(|v: Vec<i64>| v@.map_values(|x: i64| x as int))),
{
    let ghost rows = report@.map_values(|v: Vec<i64>| v@.map_values(|x: i64| x as int));
    proof {
        assert(rows.skip(0) =~= rows);
    }
    let mut sum: i128 = 0;
    let mut k: usize = 0;
    while k < report.len()
        invariant
            report@.len() <= 1000000,
            rows == report@.map_values(|v: Vec<i64>| v@.map_values(|x: i64| x as int)),
            forall|m: int|
                0 <= m < report@.len() ==> history_ok(
                    (#[trigger] report@[m])@.map_values(|x: i64| x as int),
                ),
            k <= report@.len(),
            -(k as int) * 0x4000000000000000 <= sum <= (k as int) * 0x4000000000000000,
            sum + bwd_sum(rows.skip(k as int)) == bwd_sum(rows),
        decreases report@.len() - k,
    {
        proof {
            assert(rows.skip(k as int)[0] == rows[k as int]);
            assert(rows.skip(k as int).skip(1) =~= rows.skip(k as int + 1));
            assert(rows[k as int] == report@[k as int]@.map_values(|x: i64| x as int));
            lemma_extra_bounds(rows[k as int]);
            lemma_pw2_small();
            lemma_pw2_pos((62 - rows[k as int].len()) as nat);
            assert((k as int) * 0x4000000000000000 + 0x4000000000000000 == (k as int + 1)
                * 0x4000000000000000) by (nonlinear_arith);
            assert((k as int + 1) * 0x4000000000000000 <= 1000000 * 0x4000000000000000)
                by (nonlinear_arith)
                requires
                    0 <= k as int + 1 <= 1000000,
            ;
        }
        let v = extrapolate_backward(&report[k]);
        sum = sum + (v as i128);
        k = k + 1;
    }
    proof {
        assert(rows.skip(rows.len() as int) =~= Seq::<Seq<int>>::empty());
    }
    sum as i64
}

} // verus!
