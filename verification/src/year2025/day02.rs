//! Invalid gift-shop IDs inside comma-separated ID ranges: an ID made of
//! one digit sequence repeated exactly twice in the first part, or of any
//! digit sequence repeated at least twice in the second.

use crate::text::digits_val;
use crate::text::is_digit_seq;
use crate::text::parse_u64;
use crate::text::spec_split;
use crate::text::spec_words;
use crate::text::split_on;
use crate::text::words_of;
use crate::year2025::day03::lemma_pow10_19;
use crate::year2025::day03::lemma_pow10_mono;
use crate::year2025::day03::pow10;
use vstd::prelude::*;
use vstd::string::StringSliceAdditionalSpecFns;

verus! {

/// The field spells `start-end`: two dash-separated numbers, possibly
/// surrounded by whitespace.
pub open spec fn range_field_ok(f: Seq<u8>) -> bool {
    let ws = spec_words(f);
    ws.len() == 1 && {
        let ps = spec_split(ws[0], 45);
        ps.len() == 2 && is_digit_seq(ps[0]) && is_digit_seq(ps[1]) && digits_val(ps[0])
            <= u64::MAX && digits_val(ps[1]) <= u64::MAX
    }
}

/// The range a well-formed field spells.
pub open spec fn range_of_field(f: Seq<u8>) -> (int, int) {
    let ps = spec_split(spec_words(f)[0], 45);
    (digits_val(ps[0]) as int, digits_val(ps[1]) as int)
}

/// The ranges of the well-formed fields, in order.
pub open spec fn ranges_of(fs: Seq<Seq<u8>>) -> Seq<(int, int)>
    decreases fs.len(),
{
    if fs.len() == 0 {
        Seq::empty()
    } else {
        (if range_field_ok(fs[0]) {
            seq![range_of_field(fs[0])]
        } else {
            Seq::empty()
        }) + ranges_of(fs.skip(1))
    }
}

/// Reads the comma-separated `start-end` ID ranges; a field of any other
/// shape is passed over.
pub fn parse(input: &str) -> (r: Vec<(u64, u64)>)
    ensures
        r@.map_values(|p: (u64, u64)| (p.0 as int, p.1 as int)) =~= ranges_of(
            spec_split(input.spec_bytes(), 44),
        ),
{
    let bytes: &[u8] = input.as_bytes();
    let fields = split_on(bytes, 44);
    let ghost fs = spec_split(input.spec_bytes(), 44);
    proof {
        assert(fields@.map_values(|l: Vec<u8>| l@) =~= fs);
        assert(fs.skip(0) =~= fs);
    }
    let mut out: Vec<(u64, u64)> = Vec::new();
    let mut k: usize = 0;
    while k < fields.len()
        invariant
            fields@.map_values(|l: Vec<u8>| l@) =~= fs,
            k <= fields@.len(),
            out@.map_values(|p: (u64, u64)| (p.0 as int, p.1 as int)) + ranges_of(
                fs.skip(k as int),
            ) =~= ranges_of(fs),
        decreases fields@.len() - k,
    {
        proof {
            assert(fs.skip(k as int)[0] == fs[k as int]);
            assert(fs.skip(k as int).skip(1) =~= fs.skip(k as int + 1));
            assert(fields@[k as int]@ == fs[k as int]);
        }
        let words = words_of(fields[k].as_slice());
        let ghost prev = out@.map_values(|p: (u64, u64)| (p.0 as int, p.1 as int));
        proof {
            assert(words@.map_values(|w: Vec<u8>| w@) =~= spec_words(fs[k as int]));
        }
        if words.len() == 1 {
            proof {
                assert(words@[0]@ == spec_words(fs[k as int])[0]);
            }
            let parts = split_on(words[0].as_slice(), 45);
            proof {
                assert(parts@.map_values(|w: Vec<u8>| w@) =~= spec_split(
                    spec_words(fs[k as int])[0],
                    45,
                ));
            }
            if parts.len() == 2 {
                proof {
                    assert(parts@[0]@ == spec_split(spec_words(fs[k as int])[0], 45)[0]);
                    assert(parts@[1]@ == spec_split(spec_words(fs[k as int])[0], 45)[1]);
                }
                match (parse_u64(parts[0].as_slice()), parse_u64(parts[1].as_slice())) {
                    (Some(a), Some(b)) => {
                        out.push((a, b));
                        proof {
                            assert(out@.map_values(|p: (u64, u64)| (p.0 as int, p.1 as int))
                                =~= prev.push((a as int, b as int)));
                            assert(prev.push((a as int, b as int)) + ranges_of(
                                fs.skip(k as int + 1),
                            ) =~= prev + (seq![(a as int, b as int)] + ranges_of(
                                fs.skip(k as int + 1),
                            )));
                        }
                    },
                    _ => {},
                }
            }
        }
        k = k + 1;
    }
    proof {
        assert(fs.skip(fs.len() as int) =~= Seq::<Seq<u8>>::empty());
    }
    out
}

/// The number of decimal digits of `n` (one for zero).
pub open spec fn num_len(n: int) -> int
    decreases n,
{
    if n < 10 {
        1
    } else {
        1 + num_len(n / 10)
    }
}

proof fn lemma_num_len_le(n: int, k: int)
    requires
        0 <= n,
        1 <= k,
        n < pow10(k as nat),
    ensures
        1 <= num_len(n) <= k,
    decreases k,
{
    if n >= 10 {
        if k == 1 {
            assert(pow10(1) == 10);
        }
        assert(pow10(k as nat) == 10 * pow10((k - 1) as nat));
        assert(n / 10 < pow10((k - 1) as nat)) by (nonlinear_arith)
            requires
                0 <= n && n < 10 * pow10((k - 1) as nat),
        ;
        lemma_num_len_le(n / 10, k - 1);
    }
}

proof fn lemma_num_len_mono(a: int, b: int)
    requires
        0 <= a <= b,
    ensures
        1 <= num_len(a) <= num_len(b),
    decreases b,
{
    if b < 10 {
    } else if a < 10 {
        lemma_num_len_mono(0, b / 10);
    } else {
        assert(a / 10 <= b / 10) by (nonlinear_arith)
            requires
                0 <= a <= b,
        ;
        lemma_num_len_mono(a / 10, b / 10);
    }
}

/// The digit count of `n`, by repeated division.
fn num_len_of(n: u64) -> (r: u64)
    ensures
        r == num_len(n as int),
        1 <= r <= 20,
{
    proof {
        lemma_pow10_19();
        lemma_pow10_small_vals();
    }
    let mut m: u64 = n;
    let mut r: u64 = 1;
    proof {
        assert(pow10(0) == 1);
        assert((m as int) * pow10((r - 1) as nat) <= n) by (nonlinear_arith)
            requires
                pow10((r - 1) as nat) == 1 && m == n,
        ;
    }
    while m >= 10
        invariant
            num_len(n as int) == num_len(m as int) + r - 1,
            (m as int) * pow10((r - 1) as nat) <= n,
            1 <= r <= 20,
            pow10(19) == 10000000000000000000,
            pow10(20) == 100000000000000000000,
        decreases m,
    {
        proof {
            assert((m as int / 10) * (10 * pow10((r - 1) as nat)) <= (m as int) * pow10(
                (r - 1) as nat,
            )) by (nonlinear_arith)
                requires
                    0 <= m && 0 <= pow10((r - 1) as nat),
            ;
            assert(pow10(r as nat) == 10 * pow10((r - 1) as nat));
            if r >= 20 {
                assert(1 * pow10(r as nat) <= (m as int / 10) * pow10(r as nat))
                    by (nonlinear_arith)
                    requires
                        1 <= m as int / 10 && 0 <= pow10(r as nat),
                ;
                lemma_pow10_mono(20, r as nat);
                assert(false);
            }
        }
        m = m / 10;
        r = r + 1;
    }
    r
}

proof fn lemma_pow10_small_vals()
    ensures
        pow10(9) == 1000000000,
        pow10(18) == 1000000000000000000,
        pow10(20) == 100000000000000000000,
{
    lemma_pow10_19();
    assert(pow10(0) == 1);
    assert(pow10(1) == 10);
    assert(pow10(2) == 100);
    assert(pow10(3) == 1000);
    assert(pow10(4) == 10000);
    assert(pow10(5) == 100000);
    assert(pow10(6) == 1000000);
    assert(pow10(7) == 10000000);
    assert(pow10(8) == 100000000);
    assert(pow10(9) == 1000000000);
    assert(pow10(10) == 10000000000);
    assert(pow10(11) == 100000000000);
    assert(pow10(12) == 1000000000000);
    assert(pow10(13) == 10000000000000);
    assert(pow10(14) == 100000000000000);
    assert(pow10(15) == 1000000000000000);
    assert(pow10(16) == 10000000000000000);
    assert(pow10(17) == 100000000000000000);
    assert(pow10(18) == 1000000000000000000);
    assert(pow10(20) == 10 * pow10(19));
}

/// Ten to the `k`-th, as a machine word.
fn pow10_of(k: u64) -> (r: u64)
    requires
        k <= 19,
    ensures
        r == pow10(k as nat),
{
    proof {
        lemma_pow10_19();
    }
    let mut r: u64 = 1;
    let mut i: u64 = 0;
    while i < k
        invariant
            i <= k <= 19,
            r == pow10(i as nat),
            pow10(19) == 10000000000000000000,
        decreases k - i,
    {
        proof {
            lemma_pow10_mono((i + 1) as nat, 19);
            assert(pow10((i + 1) as nat) == 10 * pow10(i as nat));
        }
        r = r * 10;
        i = i + 1;
    }
    r
}

/// The IDs between `s` and `e` that are a half-length sequence repeated
/// exactly twice, summed, scanning repetition bases `x` and up within the
/// half length `h`.
pub open spec fn twice_sum(h: int, x: int, s: int, e: int) -> int
    decreases pow10(h as nat) - x,
{
    if x < 1 || x >= pow10(h as nat) {
        0
    } else {
        (if s <= x * (pow10(h as nat) + 1) <= e {
            x * (pow10(h as nat) + 1)
        } else {
            0int
        }) + twice_sum(h, x + 1, s, e)
    }
}

/// The twice-repeated IDs in the range, summed over the even ID lengths
/// `l` through `lmax`.
pub open spec fn twice_len_sum(s: int, e: int, l: int, lmax: int) -> int
    decreases lmax - l + 1,
{
    if l < 1 || l > lmax {
        0
    } else {
        (if l % 2 == 0 {
            twice_sum(l / 2, pow10((l / 2 - 1) as nat) as int, s, e)
        } else {
            0int
        }) + twice_len_sum(s, e, l + 1, lmax)
    }
}

/// The twice-repeated IDs between `s` and `e`, summed.
pub open spec fn twice_invalid(s: int, e: int) -> int {
    twice_len_sum(s, e, num_len(s), num_len(e))
}

proof fn lemma_twice_sum_nonneg(h: int, x: int, s: int, e: int)
    ensures
        0 <= twice_sum(h, x, s, e),
    decreases pow10(h as nat) - x,
{
    if 1 <= x < pow10(h as nat) {
        lemma_twice_sum_nonneg(h, x + 1, s, e);
        if s <= x * (pow10(h as nat) + 1) <= e {
            assert(0 <= x * (pow10(h as nat) + 1)) by (nonlinear_arith)
                requires
                    1 <= x && 0 <= pow10(h as nat),
            ;
        }
    }
}

proof fn lemma_twice_len_nonneg(s: int, e: int, l: int, lmax: int)
    ensures
        0 <= twice_len_sum(s, e, l, lmax),
    decreases lmax - l + 1,
{
    if 1 <= l <= lmax {
        lemma_twice_len_nonneg(s, e, l + 1, lmax);
        if l % 2 == 0 {
            lemma_twice_sum_nonneg(l / 2, pow10((l / 2 - 1) as nat) as int, s, e);
        }
    }
}

/// The twice-repeated IDs in one range, summed. The range cap keeps the
/// candidate arithmetic within `u64`, and the total must fit; both are
/// machine limits.
#[verifier::loop_isolation(false)]
pub fn get_invalid_ids(id_range: (u64, u64)) -> (r: u64)
    requires
        id_range.1 <= 1000000000000000000,
        twice_invalid(id_range.0 as int, id_range.1 as int) <= u64::MAX,
    ensures
        r == twice_invalid(id_range.0 as int, id_range.1 as int),
{
    let s = id_range.0;
    let e = id_range.1;
    proof {
        lemma_pow10_small_vals();
        lemma_pow10_19();
        if s > e {
        } else {
            lemma_num_len_mono(s as int, e as int);
        }
        lemma_num_len_le(e as int, 19);
    }
    let ls = num_len_of(s);
    let le = num_len_of(e);
    let mut sum: u64 = 0;
    let mut l: u64 = ls;
    while l <= le
        invariant
            1 <= l,
            sum + twice_len_sum(s as int, e as int, l as int, le as int) == twice_invalid(
                s as int,
                e as int,
            ),
            0 <= sum,
        decreases le + 1 - l,
    {
        proof {
            lemma_twice_len_nonneg(s as int, e as int, l as int + 1, le as int);
        }
        if l % 2 == 0 {
            let h = l / 2;
            proof {
                lemma_pow10_mono(h as nat, 9);
            }
            let lo = pow10_of(h - 1);
            let hi = pow10_of(h);
            let mult = hi + 1;
            let mut x: u64 = lo;
            proof {
                lemma_twice_sum_nonneg(h as int, x as int, s as int, e as int);
            }
            while x < hi
                invariant
                    l % 2 == 0,
                    1 <= l <= le,
                    h == l / 2,
                    1 <= h <= 9,
                    lo == pow10((h - 1) as nat),
                    hi == pow10(h as nat),
                    mult == pow10(h as nat) + 1,
                    lo <= x <= hi,
                    sum + twice_sum(h as int, x as int, s as int, e as int) + twice_len_sum(
                        s as int,
                        e as int,
                        l as int + 1,
                        le as int,
                    ) == twice_invalid(s as int, e as int),
                    0 <= sum,
                decreases hi - x,
            {
                proof {
                    assert((x as int) * (mult as int) <= (pow10(9) - 1) * (pow10(9) + 1) && 0 <= (
                    x as int) * (mult as int)) by (nonlinear_arith)
                        requires
                            1 <= x as int <= pow10(9) - 1 && 1 <= mult as int <= pow10(9) + 1,
                    ;
                    lemma_twice_sum_nonneg(h as int, x as int + 1, s as int, e as int);
                    lemma_twice_len_nonneg(s as int, e as int, l as int + 1, le as int);
                }
                let v = x * mult;
                if s <= v && v <= e {
                    sum = sum + v;
                }
                x = x + 1;
            }
        }
        l = l + 1;
    }
    proof {
        assert(twice_len_sum(s as int, e as int, l as int, le as int) == 0);
    }
    sum
}

/// The per-range twice-repeated sums of all ranges, added up.
pub open spec fn twice_total(rs: Seq<(int, int)>) -> int
    decreases rs.len(),
{
    if rs.len() == 0 {
        0
    } else {
        twice_invalid(rs[0].0, rs[0].1) + twice_total(rs.skip(1))
    }
}

proof fn lemma_twice_total_nonneg(rs: Seq<(int, int)>)
    ensures
        0 <= twice_total(rs),
    decreases rs.len(),
{
    if rs.len() > 0 {
        lemma_twice_total_nonneg(rs.skip(1));
        lemma_twice_len_nonneg(rs[0].0, rs[0].1, num_len(rs[0].0), num_len(rs[0].1));
    }
}

/// Sums the twice-repeated IDs over all ranges. The range cap and the
/// total cap are machine limits of the `u64` arithmetic.
pub fn part_1(ids: &Vec<(u64, u64)>) -> (r: u64)
    requires
        forall|k: int| 0 <= k < ids@.len() ==> (#[trigger] ids@[k]).1 <= 1000000000000000000,
        twice_total(ids@.map_values(|p: (u64, u64)| (p.0 as int, p.1 as int))) <= u64::MAX,
    ensures
        r == twice_total(ids@.map_values(|p: (u64, u64)| (p.0 as int, p.1 as int))),
{
    let ghost rs = ids@.map_values(|p: (u64, u64)| (p.0 as int, p.1 as int));
    proof {
        assert(rs.skip(0) =~= rs);
    }
    let mut sum: u64 = 0;
    let mut k: usize = 0;
    while k < ids.len()
        invariant
            rs == ids@.map_values(|p: (u64, u64)| (p.0 as int, p.1 as int)),
            forall|m: int| 0 <= m < ids@.len() ==> (#[trigger] ids@[m]).1 <= 1000000000000000000,
            twice_total(rs) <= u64::MAX,
            k <= ids@.len(),
            sum + twice_total(rs.skip(k as int)) == twice_total(rs),
            0 <= sum,
        decreases ids@.len() - k,
    {
        proof {
            assert(rs.skip(k as int)[0] == rs[k as int]);
            assert(rs.skip(k as int).skip(1) =~= rs.skip(k as int + 1));
            assert(rs[k as int] == (ids@[k as int].0 as int, ids@[k as int].1 as int));
            lemma_twice_total_nonneg(rs.skip(k as int + 1));
            lemma_twice_total_nonneg(rs.skip(k as int));
            lemma_twice_len_nonneg(
                rs[k as int].0,
                rs[k as int].1,
                num_len(rs[k as int].0),
                num_len(rs[k as int].1),
            );
        }
        let v = get_invalid_ids(ids[k]);
        sum = sum + v;
        k = k + 1;
    }
    proof {
        assert(rs.skip(rs.len() as int) =~= Seq::<(int, int)>::empty());
    }
    sum
}

// ------------------------- repeats of any period -------------------------

/// Strictly increasing.
pub open spec fn sorted_strict_u(s: Seq<int>) -> bool {
    forall|i: int, j: int| 0 <= i < j < s.len() ==> s[i] < s[j]
}

/// A strictly sorted sequence is determined by the set of its values.
proof fn lemma_sorted_unique_u(a: Seq<int>, b: Seq<int>)
    requires
        sorted_strict_u(a),
        sorted_strict_u(b),
        forall|v: int| #[trigger] a.contains(v) <==> b.contains(v),
    ensures
        a =~= b,
    decreases a.len(),
{
    if a.len() == 0 {
        if b.len() > 0 {
            assert(b.contains(b[0]));
            assert(a.contains(b[0]));
            assert(false);
        }
        assert(a =~= b);
    } else {
        assert(a.contains(a[0]));
        assert(b.contains(a[0]));
        if b.len() == 0 {
            assert(!b.contains(a[0]));
        }
        let i = choose|i: int| 0 <= i < b.len() && b[i] == a[0];
        assert(b[0] <= b[i]) by {
            if i > 0 {
                assert(b[0] < b[i]);
            }
        }
        assert(b.contains(b[0]));
        assert(a.contains(b[0]));
        let j = choose|j: int| 0 <= j < a.len() && a[j] == b[0];
        assert(a[0] <= a[j]) by {
            if j > 0 {
                assert(a[0] < a[j]);
            }
        }
        assert(a[0] == b[0]);
        let at = a.skip(1);
        let bt = b.skip(1);
        assert forall|v: int| #[trigger] at.contains(v) <==> bt.contains(v) by {
            if at.contains(v) {
                let k = choose|k: int| 0 <= k < at.len() && at[k] == v;
                assert(a[k + 1] == v);
                assert(a[0] < v);
                assert(a.contains(v));
                assert(b.contains(v));
                let m = choose|m: int| 0 <= m < b.len() && b[m] == v;
                assert(m != 0);
                assert(bt[m - 1] == v);
                assert(bt.contains(v));
            }
            if bt.contains(v) {
                let k = choose|k: int| 0 <= k < bt.len() && bt[k] == v;
                assert(b[k + 1] == v);
                assert(b[0] < v);
                assert(b.contains(v));
                assert(a.contains(v));
                let m = choose|m: int| 0 <= m < a.len() && a[m] == v;
                assert(m != 0);
                assert(at[m - 1] == v);
                assert(at.contains(v));
            }
        }
        lemma_sorted_unique_u(at, bt);
        assert(at =~= bt);
        assert(a.len() == b.len());
        assert forall|idx: int| 0 <= idx < a.len() implies a[idx] == b[idx] by {
            if idx > 0 {
                assert(a[idx] == at[idx - 1]);
                assert(b[idx] == bt[idx - 1]);
                assert(at[idx - 1] == bt[idx - 1]);
            }
        }
        assert(a =~= b);
    }
}

/// The strictly sorted sequence holding the values of `s` and `x`; by
/// `lemma_sorted_unique_u` there is at most one such sequence.
pub open spec fn with_value(s: Seq<int>, x: int) -> Seq<int> {
    choose|q: Seq<int>|
        sorted_strict_u(q) && (forall|v: int| #[trigger] q.contains(v) <==> (s.contains(v) || v
            == x))
}

/// Adds `x` to the strictly sorted `out`, keeping it strictly sorted; a
/// value already present is left alone. The position is found by binary
/// search, so a long run of nearly sorted insertions stays fast.
fn insert_unique_u64(out: &mut Vec<u64>, x: u64)
    requires
        sorted_strict_u(old(out)@.map_values(|v: u64| v as int)),
    ensures
        sorted_strict_u(final(out)@.map_values(|v: u64| v as int)),
        final(out)@.map_values(|v: u64| v as int) == with_value(
            old(out)@.map_values(|v: u64| v as int),
            x as int,
        ),
        old(out)@.len() <= final(out)@.len() <= old(out)@.len() + 1,
        forall|m: int|
            0 <= m < final(out)@.len() ==> (old(out)@.contains(#[trigger] final(out)@[m])
                || final(out)@[m] == x),
{
    let ghost s0 = out@.map_values(|v: u64| v as int);
    let mut lo: usize = 0;
    let mut hi: usize = out.len();
    while lo < hi
        invariant
            sorted_strict_u(s0),
            s0 == out@.map_values(|v: u64| v as int),
            lo <= hi <= out@.len(),
            forall|j: int| 0 <= j < lo ==> s0[j] < x as int,
            forall|j: int| hi <= j < out@.len() ==> s0[j] >= x as int,
        decreases hi - lo,
    {
        let mid = lo + (hi - lo) / 2;
        if out[mid] < x {
            proof {
                assert forall|j: int| 0 <= j < mid + 1 implies s0[j] < x as int by {
                    if j < mid {
                        assert(s0[j] < s0[mid as int]);
                    }
                }
            }
            lo = mid + 1;
        } else {
            proof {
                assert forall|j: int| mid <= j < out@.len() implies s0[j] >= x as int by {
                    if j > mid {
                        assert(s0[mid as int] < s0[j]);
                    }
                }
            }
            hi = mid;
        }
    }
    if lo < out.len() {
        let cur = out[lo];
        if cur == x {
            proof {
                assert(s0[lo as int] == x as int);
                assert(s0.contains(x as int));
                assert(forall|v: int| #[trigger] s0.contains(v) <==> (s0.contains(v) || v == x as int));
                assert(sorted_strict_u(with_value(s0, x as int)) && (forall|v: int|
                    #[trigger] with_value(s0, x as int).contains(v) <==> (s0.contains(v) || v
                        == x as int))) by {
                    assert(sorted_strict_u(s0) && (forall|v: int| #[trigger] s0.contains(v) <==> (
                    s0.contains(v) || v == x as int)));
                }
                lemma_sorted_unique_u(s0, with_value(s0, x as int));
                assert forall|m: int|
                    0 <= m < out@.len() implies (old(out)@.contains(#[trigger] out@[m])
                    || out@[m] == x) by {
                    assert(out@.contains(out@[m]));
                }
            }
            return ;
        }
    }
    out.insert(lo, x);
    proof {
        let s1 = out@.map_values(|v: u64| v as int);
        assert(s1 =~= s0.take(lo as int).push(x as int) + s0.skip(lo as int));
        assert(lo < s0.len() ==> s0[lo as int] != x as int);
        assert forall|p: int, q: int| 0 <= p < q < s1.len() implies s1[p] < s1[q] by {
            if p < lo && q == lo {
                assert(s1[p] == s0[p]);
            } else if p == lo && q > lo {
                assert(s1[q] == s0[q - 1]);
                assert(x as int <= s0[lo as int]);
                assert(s0[lo as int] <= s0[q - 1]);
            } else if p < lo && q > lo {
                assert(s1[p] == s0[p] && s1[q] == s0[q - 1]);
            } else if p > lo && q > lo {
                assert(s1[p] == s0[p - 1] && s1[q] == s0[q - 1]);
            } else {
                assert(s1[p] == s0[p] && s1[q] == s0[q]);
            }
        }
        assert forall|v: int| #[trigger] s1.contains(v) implies (s0.contains(v) || v == x as int) by {
            let k = choose|k: int| 0 <= k < s1.len() && s1[k] == v;
            if k < lo {
                assert(s0[k] == v);
            } else if k > lo {
                assert(s0[k - 1] == v);
            }
        }
        assert forall|v: int| s0.contains(v) || v == x as int implies #[trigger] s1.contains(v) by {
            if v == x as int {
                assert(s1[lo as int] == x as int);
            } else {
                let k = choose|k: int| 0 <= k < s0.len() && s0[k] == v;
                if k < lo {
                    assert(s1[k] == v);
                } else {
                    assert(s1[k + 1] == v);
                }
            }
        }
        assert(sorted_strict_u(with_value(s0, x as int)) && (forall|v: int|
            #[trigger] with_value(s0, x as int).contains(v) <==> (s0.contains(v) || v
                == x as int))) by {
            assert(sorted_strict_u(s1) && (forall|v: int| #[trigger] s1.contains(v) <==> (
            s0.contains(v) || v == x as int)));
        }
        lemma_sorted_unique_u(s1, with_value(s0, x as int));
        assert forall|m: int|
            0 <= m < out@.len() implies (old(out)@.contains(#[trigger] out@[m]) || out@[m]
            == x) by {
            if out@[m] != x {
                assert(s1.contains(s1[m]));
                assert(s0.contains(s1[m]));
                let k = choose|k: int| 0 <= k < s0.len() && s0[k] == s1[m];
                assert(old(out)@[k] == out@[m]);
            }
        }
    }
}

/// The number the base `p` spells when written down `t` times in a row,
/// with `d` digit positions per copy.
pub open spec fn rep_val(p: int, d: int, t: int) -> int
    decreases t,
{
    if t <= 0 {
        0
    } else {
        rep_val(p, d, t - 1) * pow10(d as nat) + p
    }
}

proof fn lemma_pow10_add(a: nat, b: nat)
    ensures
        pow10(a + b) == pow10(a) * pow10(b),
    decreases b,
{
    if b == 0 {
        assert(pow10(a) * 1 == pow10(a)) by (nonlinear_arith);
    } else {
        lemma_pow10_add(a, (b - 1) as nat);
        assert(pow10(a + b) == 10 * pow10((a + b - 1) as nat));
        assert(pow10(b) == 10 * pow10((b - 1) as nat));
        assert(10 * (pow10(a) * pow10((b - 1) as nat)) == pow10(a) * (10 * pow10((b - 1) as nat)))
            by (nonlinear_arith);
    }
}

/// Repeated bases folded over the base range: each base `p` and up, within
/// `d` digits, spells its repetition; a value inside the range joins `us`.
pub open spec fn gen_pat(us: Seq<int>, l: int, d: int, p: int, s: int, e: int) -> Seq<int>
    decreases pow10(d as nat) - p,
{
    if p < 1 || p >= pow10(d as nat) {
        us
    } else {
        let v = rep_val(p, d, l / d);
        gen_pat(
            if s <= v <= e {
                with_value(us, v)
            } else {
                us
            },
            l,
            d,
            p + 1,
            s,
            e,
        )
    }
}

/// Repeated bases folded over the proper divisors `d` and up of the ID
/// length `l`.
pub open spec fn gen_div(us: Seq<int>, l: int, d: int, s: int, e: int) -> Seq<int>
    decreases l - d,
{
    if d < 1 || d >= l {
        us
    } else {
        gen_div(
            if l % d == 0 {
                gen_pat(us, l, d, pow10((d - 1) as nat) as int, s, e)
            } else {
                us
            },
            l,
            d + 1,
            s,
            e,
        )
    }
}

/// Repeated bases folded over the ID lengths `l` through `lmax`.
pub open spec fn gen_len(us: Seq<int>, l: int, lmax: int, s: int, e: int) -> Seq<int>
    decreases lmax - l + 1,
{
    if l < 1 || l > lmax {
        us
    } else {
        gen_len(gen_div(us, l, 1, s, e), l + 1, lmax, s, e)
    }
}

/// The distinct IDs between `s` and `e` made of a repeated digit sequence,
/// in increasing order.
pub open spec fn rep_ids(s: int, e: int) -> Seq<int> {
    gen_len(Seq::empty(), num_len(s), num_len(e), s, e)
}

/// The values of `q`, summed.
pub open spec fn seq_sum(q: Seq<int>) -> int
    decreases q.len(),
{
    if q.len() == 0 {
        0
    } else {
        seq_sum(q.drop_last()) + q.last()
    }
}

/// `v` saturated at the largest `u64`.
pub open spec fn clamp_u64(v: int) -> int {
    if v > u64::MAX {
        u64::MAX as int
    } else {
        v
    }
}

/// The distinct repeated IDs in one range, summed and saturated at `u64`.
/// The range cap is a machine limit keeping the candidates within `u64`.
#[verifier::loop_isolation(false)]
#[verifier::rlimit(100)]
pub fn get_invalid_ids_repeats(id_range: (u64, u64)) -> (r: u64)
    requires
        id_range.1 <= 1000000000000000000,
    ensures
        r == clamp_u64(seq_sum(rep_ids(id_range.0 as int, id_range.1 as int))),
{
    let s = id_range.0;
    let e = id_range.1;
    proof {
        lemma_pow10_small_vals();
        lemma_pow10_19();
        if s <= e {
            lemma_num_len_mono(s as int, e as int);
        }
        lemma_num_len_le(e as int, 19);
    }
    let ls = num_len_of(s);
    let le = num_len_of(e);
    let mut us: Vec<u64> = Vec::new();
    proof {
        assert(us@.map_values(|v: u64| v as int) =~= Seq::<int>::empty());
    }
    let mut l: u64 = ls;
    while l <= le
        invariant
            1 <= l,
            sorted_strict_u(us@.map_values(|v: u64| v as int)),
            gen_len(us@.map_values(|v: u64| v as int), l as int, le as int, s as int, e as int)
                == rep_ids(s as int, e as int),
            forall|m: int| 0 <= m < us@.len() ==> #[trigger] us@[m] <= e,
        decreases le + 1 - l,
    {
        let mut d: u64 = 1;
        while d < l
            invariant
                1 <= d <= l,
                sorted_strict_u(us@.map_values(|v: u64| v as int)),
                gen_len(
                    gen_div(
                        us@.map_values(|v: u64| v as int),
                        l as int,
                        d as int,
                        s as int,
                        e as int,
                    ),
                    l as int + 1,
                    le as int,
                    s as int,
                    e as int,
                ) == rep_ids(s as int, e as int),
                forall|m: int| 0 <= m < us@.len() ==> #[trigger] us@[m] <= e,
            decreases l - d,
        {
            if l % d == 0 {
                let t = l / d;
                let lo = pow10_of(d - 1);
                let hi = pow10_of(d);
                let md = pow10_of(d);
                proof {
                    lemma_pow10_mono(d as nat, 19);
                }
                let mut p: u64 = lo;
                while p < hi
                    invariant
                        1 <= d < l,
                        l % d == 0,
                        t == l / d,
                        lo == pow10((d - 1) as nat),
                        hi == pow10(d as nat),
                        md == pow10(d as nat),
                        hi <= pow10(19) < u64::MAX,
                        lo <= p <= hi,
                        sorted_strict_u(us@.map_values(|v: u64| v as int)),
                        gen_len(
                            gen_div(
                                gen_pat(
                                    us@.map_values(|v: u64| v as int),
                                    l as int,
                                    d as int,
                                    p as int,
                                    s as int,
                                    e as int,
                                ),
                                l as int,
                                d as int + 1,
                                s as int,
                                e as int,
                            ),
                            l as int + 1,
                            le as int,
                            s as int,
                            e as int,
                        ) == rep_ids(s as int, e as int),
                        forall|m: int| 0 <= m < us@.len() ==> #[trigger] us@[m] <= e,
                    decreases hi - p,
                {
                    let mut rv: u64 = 0;
                    let mut j: u64 = 0;
                    proof {
                        assert(pow10(0) == 1);
                        assert(rv < pow10(((j as int) * (d as int)) as nat)) by {
                            assert((j as int) * (d as int) == 0) by (nonlinear_arith)
                                requires
                                    j == 0,
                            ;
                        }
                    }
                    while j < t
                        invariant
                            1 <= d < l <= le <= 19,
                            t == l / d,
                            md == pow10(d as nat),
                            1 <= p < pow10(d as nat),
                            j <= t,
                            rv == rep_val(p as int, d as int, j as int),
                            rv < pow10(((j as int) * (d as int)) as nat),
                            (j as int) * (d as int) <= l,
                        decreases t - j,
                    {
                        proof {
                            assert((t as int) * (d as int) == l) by (nonlinear_arith)
                                requires
                                    t == l / d && l % d == 0 && 1 <= d,
                            ;
                            assert(((j as int) + 1) * (d as int) == (j as int) * (d as int) + (
                            d as int)) by (nonlinear_arith);
                            assert(((j as int) + 1) * (d as int) <= (t as int) * (d as int))
                                by (nonlinear_arith)
                                requires
                                    j as int + 1 <= t as int && 0 <= d as int,
                            ;
                            lemma_pow10_add(((j as int) * (d as int)) as nat, d as nat);
                            assert((rv as int) * (md as int) + (p as int) < pow10(
                                ((j as int) * (d as int) + (d as int)) as nat,
                            )) by (nonlinear_arith)
                                requires
                                    rv as int <= pow10(((j as int) * (d as int)) as nat) - 1 && 1
                                        <= (p as int) && (p as int) < pow10(d as nat) && md as int
                                        == pow10(d as nat) && pow10(
                                        ((j as int) * (d as int) + (d as int)) as nat,
                                    )
                                        == pow10(((j as int) * (d as int)) as nat) * pow10(d as nat)
                                        && 1 <= pow10(d as nat),
                            ;
                            assert(0 <= (rv as int) * (md as int)) by (nonlinear_arith)
                                requires
                                    0 <= rv && 0 <= md,
                            ;
                            lemma_pow10_mono((((j as int) * (d as int)) as nat + d as nat), 19);
                        }
                        rv = rv * md + p;
                        j = j + 1;
                    }
                    proof {
                        assert((t as int) * (d as int) == l) by (nonlinear_arith)
                            requires
                                t == l / d && l % d == 0 && 1 <= d,
                        ;
                    }
                    let ghost prevmap = us@.map_values(|v: u64| v as int);
                    if s <= rv && rv <= e {
                        insert_unique_u64(&mut us, rv);
                        proof {
                            assert(us@.map_values(|v: u64| v as int) == with_value(
                                prevmap,
                                rv as int,
                            ));
                            assert forall|m: int| 0 <= m < us@.len() implies #[trigger] us@[m]
                                <= e by {
                                let sm = us@.map_values(|v: u64| v as int);
                                assert(sm[m] == us@[m] as int);
                                if prevmap.contains(sm[m]) {
                                    let k2 = choose|k2: int|
                                        0 <= k2 < prevmap.len() && prevmap[k2] == sm[m];
                                }
                            }
                        }
                    }
                    p = p + 1;
                }
            }
            d = d + 1;
        }
        l = l + 1;
    }
    proof {
        assert(gen_len(
            us@.map_values(|v: u64| v as int),
            l as int,
            le as int,
            s as int,
            e as int,
        ) == us@.map_values(|v: u64| v as int));
    }
    let mut sum: u128 = 0;
    let mut k: usize = 0;
    proof {
        assert(us@.map_values(|v: u64| v as int).take(0) =~= Seq::<int>::empty());
    }
    while k < us.len()
        invariant
            k <= us@.len(),
            e <= 1000000000000000000,
            forall|m: int| 0 <= m < us@.len() ==> #[trigger] us@[m] <= e,
            sum == seq_sum(us@.map_values(|v: u64| v as int).take(k as int)),
            sum <= (k as int) * 0x1000000000000000,
        decreases us@.len() - k,
    {
        proof {
            let sm = us@.map_values(|v: u64| v as int);
            assert(sm.take(k as int + 1).drop_last() =~= sm.take(k as int));
            assert(sm.take(k as int + 1).last() == sm[k as int]);
            assert((k as int) * 0x1000000000000000 + 0x1000000000000000 == (k as int + 1)
                * 0x1000000000000000) by (nonlinear_arith);
            assert((k as int + 1) * 0x1000000000000000 <= (us@.len() as int) * 0x1000000000000000)
                by (nonlinear_arith)
                requires
                    k as int + 1 <= us@.len() as int,
            ;
            assert((us@.len() as int) * 0x1000000000000000 <= 0x10000000000000000
                * 0x1000000000000000) by (nonlinear_arith)
                requires
                    us@.len() as int <= 0x10000000000000000,
            ;
        }
        sum = sum + (us[k] as u128);
        k = k + 1;
    }
    proof {
        assert(us@.map_values(|v: u64| v as int).take(us@.len() as int) =~= us@.map_values(
            |v: u64| v as int,
        ));
    }
    if sum > u64::MAX as u128 {
        u64::MAX
    } else {
        sum as u64
    }
}

/// The per-range repeated-ID sums added up, each saturated at `u64` and
/// the running total saturated as well.
pub open spec fn repeat_total(rs: Seq<(int, int)>, acc: int) -> int
    decreases rs.len(),
{
    if rs.len() == 0 {
        acc
    } else {
        let v = clamp_u64(seq_sum(rep_ids(rs[0].0, rs[0].1)));
        if acc + v > u64::MAX {
            u64::MAX as int
        } else {
            repeat_total(rs.skip(1), acc + v)
        }
    }
}

/// Sums the distinct repeated IDs over all ranges, saturating at `u64`.
/// The range cap is a machine limit of the candidate arithmetic.
pub fn part_2(ids: &Vec<(u64, u64)>) -> (r: u64)
    requires
        forall|k: int| 0 <= k < ids@.len() ==> (#[trigger] ids@[k]).1 <= 1000000000000000000,
    ensures
        r == repeat_total(ids@.map_values(|p: (u64, u64)| (p.0 as int, p.1 as int)), 0),
{
    let ghost rs = ids@.map_values(|p: (u64, u64)| (p.0 as int, p.1 as int));
    proof {
        assert(rs.skip(0) =~= rs);
    }
    let mut sum: u64 = 0;
    let mut k: usize = 0;
    while k < ids.len()
        invariant
            rs == ids@.map_values(|p: (u64, u64)| (p.0 as int, p.1 as int)),
            forall|m: int| 0 <= m < ids@.len() ==> (#[trigger] ids@[m]).1 <= 1000000000000000000,
            k <= ids@.len(),
            repeat_total(rs.skip(k as int), sum as int) == repeat_total(rs, 0),
        decreases ids@.len() - k,
    {
        proof {
            assert(rs.skip(k as int)[0] == rs[k as int]);
            assert(rs.skip(k as int).skip(1) =~= rs.skip(k as int + 1));
            assert(rs[k as int] == (ids@[k as int].0 as int, ids@[k as int].1 as int));
        }
        let v = get_invalid_ids_repeats(ids[k]);
        if v > u64::MAX - sum {
            return u64::MAX;
        }
        sum = sum + v;
        k = k + 1;
    }
    sum
}


} // verus!
