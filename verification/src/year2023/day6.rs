//! Boat races: holding the button for `x` time units in a race of length
//! `t` travels `x * (t - x)`; count the hold times that beat the record.

use crate::text::after_colon;
use crate::text::data_after_colon;
use crate::text::digits_val;
use crate::text::is_digit_seq;
use crate::text::lines_of;
use crate::text::parse_u64;
use crate::text::spec_lines;
use crate::text::spec_words;
use crate::text::words_of;
use vstd::prelude::*;
use vstd::string::StringSliceAdditionalSpecFns;

verus! {

/// The number of hold times `x` through `t` that beat the record `d`.
pub open spec fn ways_from(t: int, d: int, x: int) -> int
    decreases t - x + 1,
{
    if x < 0 || x > t {
        0
    } else {
        (if x * (t - x) > d {
            1int
        } else {
            0int
        }) + ways_from(t, d, x + 1)
    }
}

/// How many whole hold times win a race of length `t` against the record
/// `d`. The race length cap is a machine limit keeping the products in
/// `u64`.
pub fn different_ways(t: u64, d: u64) -> (r: u64)
    requires
        t <= u32::MAX,
    ensures
        r == ways_from(t as int, d as int, 0),
{
    let mut cnt: u64 = 0;
    let mut x: u64 = 0;
    while x <= t
        invariant
            t <= u32::MAX,
            x <= t + 1,
            cnt + ways_from(t as int, d as int, x as int) == ways_from(t as int, d as int, 0),
            cnt <= x,
        decreases t + 1 - x,
    {
        proof {
            assert((x as int) * ((t - x) as int) <= 0xFFFFFFFFi64 * 0xFFFFFFFFi64)
                by (nonlinear_arith)
                requires
                    0 <= (x as int) <= 0xFFFFFFFFi64 && 0 <= ((t - x) as int) <= 0xFFFFFFFFi64,
            ;
            assert(0 <= (x as int) * ((t - x) as int)) by (nonlinear_arith)
                requires
                    0 <= x && 0 <= t - x,
            ;
        }
        if x * (t - x) > d {
            cnt = cnt + 1;
        }
        x = x + 1;
    }
    cnt
}

/// The numbers among the whitespace-separated words of `l`, in order;
/// words that spell no `u64` are passed over.
pub open spec fn word_vals(ws: Seq<Seq<u8>>) -> Seq<int>
    decreases ws.len(),
{
    if ws.len() == 0 {
        Seq::empty()
    } else {
        (if is_digit_seq(ws[0]) && digits_val(ws[0]) <= u64::MAX {
            seq![digits_val(ws[0]) as int]
        } else {
            Seq::empty()
        }) + word_vals(ws.skip(1))
    }
}

fn parse_line_vals(line: &Vec<u8>) -> (r: Vec<u64>)
    ensures
        r@.map_values(|x: u64| x as int) =~= word_vals(spec_words(line@)),
{
    let words = words_of(line.as_slice());
    let ghost ws = spec_words(line@);
    proof {
        assert(words@.map_values(|w: Vec<u8>| w@) =~= ws);
        assert(ws.skip(0) =~= ws);
    }
    let mut out: Vec<u64> = Vec::new();
    let mut k: usize = 0;
    while k < words.len()
        invariant
            words@.map_values(|w: Vec<u8>| w@) =~= ws,
            k <= words@.len(),
            out@.map_values(|x: u64| x as int) + word_vals(ws.skip(k as int)) =~= word_vals(ws),
        decreases words@.len() - k,
    {
        proof {
            assert(ws.skip(k as int)[0] == ws[k as int]);
            assert(ws.skip(k as int).skip(1) =~= ws.skip(k as int + 1));
            assert(words@[k as int]@ == ws[k as int]);
        }
        let ghost prev = out@.map_values(|x: u64| x as int);
        match parse_u64(words[k].as_slice()) {
            Some(v) => {
                out.push(v);
                proof {
                    assert(out@.map_values(|x: u64| x as int) =~= prev.push(v as int));
                    assert(prev.push(v as int) + word_vals(ws.skip(k as int + 1)) =~= prev + (seq![
                        v as int,
                    ] + word_vals(ws.skip(k as int + 1))));
                }
            },
            None => {},
        }
        k = k + 1;
    }
    proof {
        assert(ws.skip(ws.len() as int) =~= Seq::<Seq<u8>>::empty());
    }
    out
}

/// The win counts of the paired races multiplied onto `acc`, with two
/// hard stops: a race longer than the supported cap, or a product leaving
/// `u64`, yields zero. Those stops are machine limits of this scoring.
pub open spec fn ways_product(ts: Seq<int>, ds: Seq<int>, acc: int) -> int
    decreases ts.len(),
{
    if ts.len() == 0 || ds.len() == 0 {
        acc
    } else if ts[0] > u32::MAX {
        0
    } else {
        let w = ways_from(ts[0], ds[0], 0);
        if w == 0 {
            0
        } else if acc > (u64::MAX as int) / w {
            0
        } else {
            ways_product(ts.skip(1), ds.skip(1), acc * w)
        }
    }
}

/// Multiplies the win counts of all races: the first input line lists the
/// times, the second the record distances, paired up in order.
pub fn part_1(input: &str) -> (r: u64)
    ensures
        ({
            let ls = spec_lines(input.spec_bytes());
            ls.len() >= 2 ==> r == ways_product(
                word_vals(spec_words(ls[0])),
                word_vals(spec_words(ls[1])),
                1,
            )
        }),
{
    let ghost ls = spec_lines(input.spec_bytes());
    let lines = lines_of(input);
    if lines.len() < 2 {
        return 0;
    }
    let times = parse_line_vals(&lines[0]);
    let dists = parse_line_vals(&lines[1]);
    let ghost ts = word_vals(spec_words(ls[0]));
    let ghost ds = word_vals(spec_words(ls[1]));
    proof {
        assert(lines@[0]@ == ls[0] && lines@[1]@ == ls[1]);
        assert(times@.map_values(|x: u64| x as int) == ts);
        assert(dists@.map_values(|x: u64| x as int) == ds);
        assert(ts.skip(0) =~= ts && ds.skip(0) =~= ds);
    }
    let n = if times.len() <= dists.len() {
        times.len()
    } else {
        dists.len()
    };
    let mut prod: u64 = 1;
    let mut k: usize = 0;
    while k < n
        invariant
            ls == spec_lines(input.spec_bytes()),
            ls.len() >= 2,
            ts == word_vals(spec_words(ls[0])),
            ds == word_vals(spec_words(ls[1])),
            ts == times@.map_values(|x: u64| x as int),
            ds == dists@.map_values(|x: u64| x as int),
            n <= times@.len() && n <= dists@.len(),
            (n == times@.len() || n == dists@.len()),
            k <= n,
            ways_product(ts.skip(k as int), ds.skip(k as int), prod as int) == ways_product(
                ts,
                ds,
                1,
            ),
        decreases n - k,
    {
        proof {
            assert(ts.skip(k as int)[0] == ts[k as int]);
            assert(ts.skip(k as int).skip(1) =~= ts.skip(k as int + 1));
            assert(ds.skip(k as int)[0] == ds[k as int]);
            assert(ds.skip(k as int).skip(1) =~= ds.skip(k as int + 1));
        }
        let t = times[k];
        let d = dists[k];
        if t > u32::MAX as u64 {
            return 0;
        }
        let w = different_ways(t, d);
        if w == 0 {
            return 0;
        }
        if prod > u64::MAX / w {
            return 0;
        }
        proof {
            assert((prod as int) * (w as int) <= u64::MAX && 0 <= (prod as int) * (w as int))
                by (nonlinear_arith)
                requires
                    0 <= prod as int <= (u64::MAX as int) / (w as int) && 1 <= w as int,
            ;
        }
        prod = prod * w;
        k = k + 1;
    }
    proof {
        assert(ts.skip(k as int).len() == 0 || ds.skip(k as int).len() == 0);
    }
    prod
}

/// The digits of all words joined into one number, as on a race sheet
/// with bad kerning.
pub open spec fn joined(ws: Seq<Seq<u8>>) -> Seq<u8>
    decreases ws.len(),
{
    if ws.len() == 0 {
        Seq::empty()
    } else {
        ws[0] + joined(ws.skip(1))
    }
}

fn join_words(line: &Vec<u8>) -> (r: Vec<u8>)
    ensures
        r@ =~= joined(spec_words(line@)),
{
    let words = words_of(line.as_slice());
    let ghost ws = spec_words(line@);
    proof {
        assert(words@.map_values(|w: Vec<u8>| w@) =~= ws);
        assert(ws.skip(0) =~= ws);
    }
    let mut out: Vec<u8> = Vec::new();
    let mut k: usize = 0;
    while k < words.len()
        invariant
            words@.map_values(|w: Vec<u8>| w@) =~= ws,
            k <= words@.len(),
            out@ + joined(ws.skip(k as int)) =~= joined(ws),
        decreases words@.len() - k,
    {
        proof {
            assert(ws.skip(k as int)[0] == ws[k as int]);
            assert(ws.skip(k as int).skip(1) =~= ws.skip(k as int + 1));
            assert(words@[k as int]@ == ws[k as int]);
        }
        let ghost prev = out@;
        let mut j: usize = 0;
        let w = &words[k];
        while j < w.len()
            invariant
                w@ == ws[k as int],
                j <= w@.len(),
                out@ =~= prev + ws[k as int].take(j as int),
            decreases w@.len() - j,
        {
            out.push(w[j]);
            proof {
                assert(ws[k as int].take(j as int + 1) =~= ws[k as int].take(j as int).push(
                    ws[k as int][j as int],
                ));
            }
            j = j + 1;
        }
        proof {
            assert(ws[k as int].take(ws[k as int].len() as int) =~= ws[k as int]);
            assert(prev + ws[k as int] + joined(ws.skip(k as int + 1)) =~= prev + (ws[k as int]
                + joined(ws.skip(k as int + 1))));
        }
        k = k + 1;
    }
    proof {
        assert(ws.skip(ws.len() as int) =~= Seq::<Seq<u8>>::empty());
    }
    out
}

/// The one big race: all time digits joined form the time, all distance
/// digits the record. A sheet whose joined digits spell no `u64`, or a
/// time over the supported cap, yields zero; those are machine limits.
pub open spec fn spec_big_race(l1: Seq<u8>, l2: Seq<u8>) -> int {
    let tj = joined(spec_words(after_colon(l1)));
    let dj = joined(spec_words(after_colon(l2)));
    if is_digit_seq(tj) && digits_val(tj) <= u32::MAX && is_digit_seq(dj) && digits_val(dj)
        <= u64::MAX {
        ways_from(digits_val(tj) as int, digits_val(dj) as int, 0)
    } else {
        0
    }
}

/// Counts the winning hold times of the single joined race.
pub fn part_2(input: &str) -> (r: u64)
    ensures
        ({
            let ls = spec_lines(input.spec_bytes());
            ls.len() >= 2 ==> r == spec_big_race(ls[0], ls[1])
        }),
{
    let ghost ls = spec_lines(input.spec_bytes());
    let lines = lines_of(input);
    if lines.len() < 2 {
        return 0;
    }
    proof {
        assert(lines@[0]@ == ls[0] && lines@[1]@ == ls[1]);
    }
    let t_data = data_after_colon(&lines[0]);
    let d_data = data_after_colon(&lines[1]);
    let tj = join_words(&t_data);
    let dj = join_words(&d_data);
    let t = match parse_u64(tj.as_slice()) {
        Some(t) => t,
        None => {
            return 0;
        },
    };
    let d = match parse_u64(dj.as_slice()) {
        Some(d) => d,
        None => {
            return 0;
        },
    };
    if t > u32::MAX as u64 {
        return 0;
    }
    different_ways(t, d)
}

} // verus!
