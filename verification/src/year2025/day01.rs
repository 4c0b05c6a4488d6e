//! A dial with positions 0 through 99, turned left or right by a list of
//! rotations: counting the stops and the crossings at position zero.

use crate::text::digits_val;
use crate::text::is_digit_seq;
use crate::text::lines_of;
use crate::text::parse_u64;
use crate::text::spec_lines;
use vstd::prelude::*;
use vstd::string::StringSliceAdditionalSpecFns;

verus! {

/// A rotation line: `L` or `R` and then the digits of the step count. The
/// cap on the step count is a machine limit that keeps the arithmetic small.
pub open spec fn rot_line_ok(l: Seq<u8>) -> bool {
    l.len() >= 2 && (l[0] == 76 || l[0] == 82) && is_digit_seq(l.skip(1)) && digits_val(l.skip(1))
        <= 1000000000
}

/// The dial position after one rotation applied at position `d`.
pub open spec fn dial_step(d: int, l: Seq<u8>) -> int {
    let n = digits_val(l.skip(1)) as int;
    if l[0] == 76 {
        (d + 100 - (n % 100)) % 100
    } else {
        (d + (n % 100)) % 100
    }
}

/// Dial position and number of stops at zero after running `ls` from
/// position `d` with `c` stops so far.
pub open spec fn stops_run(ls: Seq<Seq<u8>>, d: int, c: int) -> (int, int)
    decreases ls.len(),
{
    if ls.len() == 0 {
        (d, c)
    } else {
        let d2 = dial_step(d, ls[0]);
        stops_run(ls.skip(1), d2, c + (if d2 == 0 {
            1int
        } else {
            0int
        }))
    }
}

/// How often one rotation makes the dial pass or stop at zero.
pub open spec fn cross_step(d: int, l: Seq<u8>) -> int {
    let n = digits_val(l.skip(1)) as int;
    if l[0] == 76 {
        let rev = if d == 0 {
            100int
        } else {
            d
        };
        if n >= rev {
            1 + (n - rev) / 100
        } else {
            0
        }
    } else {
        (d + n) / 100
    }
}

/// Dial position and number of zero crossings after running `ls`.
pub open spec fn cross_run(ls: Seq<Seq<u8>>, d: int, c: int) -> (int, int)
    decreases ls.len(),
{
    if ls.len() == 0 {
        (d, c)
    } else {
        cross_run(ls.skip(1), dial_step(d, ls[0]), c + cross_step(d, ls[0]))
    }
}

/// The crossing count only grows as the run goes on.
proof fn lemma_cross_monotone(ls: Seq<Seq<u8>>, d: int, c: int)
    requires
        0 <= d,
    ensures
        cross_run(ls, d, c).1 >= c,
        cross_run(ls, d, c).0 >= 0,
    decreases ls.len(),
{
    if ls.len() > 0 {
        lemma_cross_monotone(ls.skip(1), dial_step(d, ls[0]), c + cross_step(d, ls[0]));
    }
}

fn read_rotation(line: &Vec<u8>) -> (r: Option<(bool, u64)>)
    ensures
        match r {
            Some((left, n)) => rot_line_ok(line@) && left == (line@[0] == 76) && n == digits_val(
                line@.skip(1),
            ),
            None => !rot_line_ok(line@),
        },
{
    if line.len() < 2 {
        return None;
    }
    let b = line[0];
    if b != 76 && b != 82 {
        return None;
    }
    let digits: &[u8] = &line.as_slice()[1..line.len()];
    proof {
        assert(digits@ =~= line@.skip(1));
    }
    match parse_u64(digits) {
        Some(n) => {
            if n <= 1000000000 {
                Some((b == 76, n))
            } else {
                None
            }
        },
        None => None,
    }
}

/// How many rotations leave the dial stopped exactly at zero. A malformed
/// line is skipped; on well-formed input the result is the stop count of
/// the whole run from the starting position 50.
pub fn part_1(input: &str) -> (r: usize)
    ensures
        ({
            let ls = spec_lines(input.spec_bytes());
            (forall|i: int| 0 <= i < ls.len() ==> rot_line_ok(#[trigger] ls[i])) ==> r
                == stops_run(ls, 50, 0).1
        }),
{
    let ghost ls = spec_lines(input.spec_bytes());
    let lines = lines_of(input);
    let mut dial: u64 = 50;
    let mut cnt: usize = 0;
    let mut k: usize = 0;
    proof {
        assert(ls.skip(0) =~= ls);
    }
    while k < lines.len()
        invariant
            lines@.map_values(|l: Vec<u8>| l@) =~= ls,
            k <= lines@.len(),
            dial < 100,
            cnt <= k,
            (forall|i: int| 0 <= i < k ==> rot_line_ok(#[trigger] ls[i])) ==> stops_run(ls, 50, 0)
                == stops_run(ls.skip(k as int), dial as int, cnt as int),
        decreases lines@.len() - k,
    {
        proof {
            assert(ls.skip(k as int)[0] == ls[k as int]);
            assert(ls.skip(k as int).skip(1) =~= ls.skip(k as int + 1));
        }
        match read_rotation(&lines[k]) {
            Some((left, n)) => {
                let nm: u64 = n % 100;
                dial = if left {
                    (dial + 100 - nm) % 100
                } else {
                    (dial + nm) % 100
                };
                if dial == 0 {
                    cnt = cnt + 1;
                }
            },
            None => {},
        }
        k = k + 1;
    }
    proof {
        assert(ls.skip(ls.len() as int) =~= Seq::<Seq<u8>>::empty());
    }
    cnt
}

/// How often the dial passes or stops at zero over the whole run. A
/// malformed line is skipped; on well-formed input whose crossing total
/// fits in `u32`, the result is that total.
pub fn part_2(input: &str) -> (r: u32)
    ensures
        ({
            let ls = spec_lines(input.spec_bytes());
            ((forall|i: int| 0 <= i < ls.len() ==> rot_line_ok(#[trigger] ls[i])) && cross_run(
                ls,
                50,
                0,
            ).1 <= u32::MAX) ==> r == cross_run(ls, 50, 0).1
        }),
{
    let ghost ls = spec_lines(input.spec_bytes());
    let lines = lines_of(input);
    let mut dial: u64 = 50;
    let mut cnt: u64 = 0;
    let mut k: usize = 0;
    proof {
        assert(ls.skip(0) =~= ls);
    }
    while k < lines.len()
        invariant
            lines@.map_values(|l: Vec<u8>| l@) =~= ls,
            k <= lines@.len(),
            dial < 100,
            cnt <= 0x100000000u64 + 10000001u64,
            (forall|i: int| 0 <= i < k ==> rot_line_ok(#[trigger] ls[i])) && cross_run(
                ls,
                50,
                0,
            ).1 <= u32::MAX ==> cross_run(ls, 50, 0) == cross_run(
                ls.skip(k as int),
                dial as int,
                cnt as int,
            ),
        decreases lines@.len() - k,
    {
        proof {
            assert(ls.skip(k as int)[0] == ls[k as int]);
            assert(ls.skip(k as int).skip(1) =~= ls.skip(k as int + 1));
        }
        let ghost d0 = dial as int;
        let ghost c0 = cnt as int;
        match read_rotation(&lines[k]) {
            Some((left, n)) => {
                let add: u64 = if left {
                    let rev: u64 = if dial == 0 {
                        100
                    } else {
                        dial
                    };
                    if n >= rev {
                        1 + (n - rev) / 100
                    } else {
                        0
                    }
                } else {
                    (dial + n) / 100
                };
                if cnt <= 0x100000000u64 {
                    cnt = cnt + add;
                }
                let nm: u64 = n % 100;
                dial = if left {
                    (dial + 100 - nm) % 100
                } else {
                    (dial + nm) % 100
                };
                proof {
                    lemma_cross_monotone(ls.skip(k as int), d0, c0);
                }
            },
            None => {},
        }
        k = k + 1;
    }
    proof {
        assert(ls.skip(ls.len() as int) =~= Seq::<Seq<u8>>::empty());
    }
    if cnt > u32::MAX as u64 {
        u32::MAX
    } else {
        cnt as u32
    }
}

} // verus!
