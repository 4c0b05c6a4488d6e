//! Cube games: each line lists draws of red, green and blue cubes. A game
//! is possible when no draw exceeds the bag's contents, and each game has a
//! minimal bag whose power is the product of its three counts.

use crate::text::after_colon;
use crate::text::data_after_colon;
use crate::text::digits_val;
use crate::text::is_digit_seq;
use crate::text::lines_of;
use crate::text::parse_u64;
use crate::text::spec_lines;
use crate::text::spec_split;
use crate::text::spec_words;
use crate::text::split_on;
use crate::text::words_of;
use vstd::prelude::*;
use vstd::string::StringSliceAdditionalSpecFns;

verus! {

/// One draw of cubes: red, green and blue counts.
#[derive(Debug, Clone, Copy, Eq, PartialEq, Structural)]
pub struct Cube(pub u32, pub u32, pub u32);

/// Applies one `count color` field to the cube counts: a well-formed field
/// overwrites the named color, anything else changes nothing.
pub open spec fn field_effect(f: Seq<u8>, acc: (int, int, int)) -> (int, int, int) {
    let ws = spec_words(f);
    if ws.len() == 2 && is_digit_seq(ws[0]) && digits_val(ws[0]) <= u32::MAX {
        let v = digits_val(ws[0]) as int;
        if ws[1] =~= seq![114u8, 101u8, 100u8] {
            (v, acc.1, acc.2)
        } else if ws[1] =~= seq![103u8, 114u8, 101u8, 101u8, 110u8] {
            (acc.0, v, acc.2)
        } else if ws[1] =~= seq![98u8, 108u8, 117u8, 101u8] {
            (acc.0, acc.1, v)
        } else {
            acc
        }
    } else {
        acc
    }
}

/// Folds every comma-separated field of a draw into cube counts.
pub open spec fn cube_fold(fs: Seq<Seq<u8>>, acc: (int, int, int)) -> (int, int, int)
    decreases fs.len(),
{
    if fs.len() == 0 {
        acc
    } else {
        cube_fold(fs.skip(1), field_effect(fs[0], acc))
    }
}

/// The cube counts a draw segment spells.
pub open spec fn spec_cube(seg: Seq<u8>) -> (int, int, int) {
    cube_fold(spec_split(seg, 44), (0, 0, 0))
}

impl Cube {
    /// Reads a draw such as a comma-separated list of `count color` pairs.
    /// Fields naming no known color, or spelling no `u32` count, are
    /// ignored.
    pub fn from(line: &str) -> (r: Cube)
        ensures
            (r.0 as int, r.1 as int, r.2 as int) == spec_cube(line.spec_bytes()),
    {
        let bytes: &[u8] = line.as_bytes();
        cube_of_bytes(bytes)
    }
}

fn word_eq(w: &Vec<u8>, pat: &[u8]) -> (r: bool)
    ensures
        r == (w@ =~= pat@),
{
    if w.len() != pat.len() {
        return false;
    }
    let mut j: usize = 0;
    while j < pat.len()
        invariant
            w@.len() == pat@.len(),
            j <= pat@.len(),
            forall|m: int| 0 <= m < j ==> w@[m] == pat@[m],
        decreases pat@.len() - j,
    {
        if w[j] != pat[j] {
            return false;
        }
        j = j + 1;
    }
    proof {
        assert(w@ =~= pat@);
    }
    true
}

fn cube_of_bytes(seg: &[u8]) -> (r: Cube)
    ensures
        (r.0 as int, r.1 as int, r.2 as int) == spec_cube(seg@),
{
    let fields = split_on(seg, 44);
    let ghost fs = spec_split(seg@, 44);
    proof {
        assert(fields@.map_values(|l: Vec<u8>| l@) =~= fs);
        assert(fs.skip(0) =~= fs);
    }
    let mut red: u32 = 0;
    let mut green: u32 = 0;
    let mut blue: u32 = 0;
    let mut k: usize = 0;
    while k < fields.len()
        invariant
            fields@.map_values(|l: Vec<u8>| l@) =~= fs,
            k <= fields@.len(),
            cube_fold(fs, (0, 0, 0)) == cube_fold(
                fs.skip(k as int),
                (red as int, green as int, blue as int),
            ),
        decreases fields@.len() - k,
    {
        proof {
            assert(fs.skip(k as int)[0] == fs[k as int]);
            assert(fs.skip(k as int).skip(1) =~= fs.skip(k as int + 1));
            assert(fields@[k as int]@ == fs[k as int]);
        }
        let words = words_of(fields[k].as_slice());
        let ghost ws = spec_words(fs[k as int]);
        proof {
            assert(words@.map_values(|l: Vec<u8>| l@) =~= ws);
        }
        if words.len() == 2 {
            proof {
                assert(words@[0]@ == ws[0]);
                assert(words@[1]@ == ws[1]);
            }
            match parse_u64(words[0].as_slice()) {
                Some(v) => {
                    if v <= u32::MAX as u64 {
                        if word_eq(&words[1], &[114u8, 101u8, 100u8]) {
                            proof {
                                assert(seq![114u8, 101u8, 100u8] =~= [114u8, 101u8, 100u8]@);
                            }
                            red = v as u32;
                        } else if word_eq(&words[1], &[103u8, 114u8, 101u8, 101u8, 110u8]) {
                            proof {
                                assert(seq![103u8, 114u8, 101u8, 101u8, 110u8] =~= [
                                    103u8,
                                    114u8,
                                    101u8,
                                    101u8,
                                    110u8,
                                ]@);
                            }
                            green = v as u32;
                        } else if word_eq(&words[1], &[98u8, 108u8, 117u8, 101u8]) {
                            proof {
                                assert(seq![98u8, 108u8, 117u8, 101u8] =~= [
                                    98u8,
                                    108u8,
                                    117u8,
                                    101u8,
                                ]@);
                            }
                            blue = v as u32;
                        }
                    }
                },
                None => {},
            }
        }
        k = k + 1;
    }
    proof {
        assert(fs.skip(fs.len() as int) =~= Seq::<Seq<u8>>::empty());
    }
    Cube(red, green, blue)
}

/// Every draw of the game line fits in a bag of 12 red, 13 green and 14
/// blue cubes.
pub open spec fn spec_possible(l: Seq<u8>) -> bool {
    let segs = spec_split(after_colon(l), 59);
    forall|k: int|
        0 <= k < segs.len() ==> {
            let c = spec_cube(#[trigger] segs[k]);
            c.0 <= 12 && c.1 <= 13 && c.2 <= 14
        }
}

/// Whether the game on `line` is possible with the fixed bag.
pub fn possible(line: &Vec<u8>) -> (r: bool)
    ensures
        r == spec_possible(line@),
{
    let data = data_after_colon(line);
    let segs = split_on(data.as_slice(), 59);
    let ghost ss = spec_split(after_colon(line@), 59);
    proof {
        assert(segs@.map_values(|l: Vec<u8>| l@) =~= ss);
    }
    let mut k: usize = 0;
    while k < segs.len()
        invariant
            ss == spec_split(after_colon(line@), 59),
            segs@.map_values(|l: Vec<u8>| l@) =~= ss,
            k <= segs@.len(),
            forall|m: int|
                0 <= m < k ==> {
                    let c = spec_cube(#[trigger] ss[m]);
                    c.0 <= 12 && c.1 <= 13 && c.2 <= 14
                },
        decreases segs@.len() - k,
    {
        proof {
            assert(segs@[k as int]@ == ss[k as int]);
        }
        let c = cube_of_bytes(segs[k].as_slice());
        if !(c.0 <= 12 && c.1 <= 13 && c.2 <= 14) {
            proof {
                assert(spec_split(after_colon(line@), 59)[k as int] == ss[k as int]);
                let cc = spec_cube(spec_split(after_colon(line@), 59)[k as int]);
                assert(!(cc.0 <= 12 && cc.1 <= 13 && cc.2 <= 14));
                assert(!spec_possible(line@));
            }
            return false;
        }
        k = k + 1;
    }
    true
}

/// The indices (one-based) of the possible games, summed.
pub open spec fn possible_sum(ls: Seq<Seq<u8>>, base: int) -> int
    decreases ls.len(),
{
    if ls.len() == 0 {
        0
    } else {
        (if spec_possible(ls[0]) {
            base
        } else {
            0int
        }) + possible_sum(ls.skip(1), base + 1)
    }
}

/// Splits the input into its game lines.
pub fn parse(input: &str) -> (r: Vec<Vec<u8>>)
    ensures
        r@.map_values(|l: Vec<u8>| l@) =~= spec_lines(input.spec_bytes()),
{
    lines_of(input)
}

/// Sums the one-based indices of the games that are possible with a bag of
/// 12 red, 13 green and 14 blue cubes. The line cap is a machine limit
/// that keeps the sum within `usize`.
pub fn part_1(input: &Vec<Vec<u8>>) -> (r: usize)
    requires
        input@.len() <= 60000,
    ensures
        r == possible_sum(input@.map_values(|l: Vec<u8>| l@), 1),
{
    let ghost ls = input@.map_values(|l: Vec<u8>| l@);
    proof {
        assert(ls.skip(0) =~= ls);
        lemma_possible_sum_bounds(ls, 1);
    }
    let mut sum: usize = 0;
    let mut k: usize = 0;
    while k < input.len()
        invariant
            input@.len() <= 60000,
            ls == input@.map_values(|l: Vec<u8>| l@),
            k <= input@.len(),
            sum <= (k as int) * (ls.len() + 1),
            sum + possible_sum(ls.skip(k as int), k as int + 1) == possible_sum(ls, 1),
        decreases input@.len() - k,
    {
        proof {
            assert(ls.skip(k as int)[0] == ls[k as int]);
            assert(ls.skip(k as int).skip(1) =~= ls.skip(k as int + 1));
            assert((k as int) * (ls.len() + 1) + (ls.len() + 1) == (k as int + 1) * (ls.len() + 1))
                by (nonlinear_arith);
            assert((k as int + 1) * (ls.len() + 1) <= 60000 * 60001) by (nonlinear_arith)
                requires
                    0 <= k as int + 1 <= 60000 && 0 <= ls.len() + 1 <= 60001,
            ;
        }
        if possible(&input[k]) {
            sum = sum + (k + 1);
        }
        k = k + 1;
    }
    proof {
        assert(ls.skip(ls.len() as int) =~= Seq::<Seq<u8>>::empty());
    }
    sum
}

proof fn lemma_possible_sum_bounds(ls: Seq<Seq<u8>>, base: int)
    requires
        0 <= base,
    ensures
        0 <= possible_sum(ls, base),
    decreases ls.len(),
{
    if ls.len() > 0 {
        lemma_possible_sum_bounds(ls.skip(1), base + 1);
    }
}

/// The smallest bag covering every draw of the game: the maximum count of
/// each color, folded over the comma- and semicolon-separated fields.
pub open spec fn max_cube(segs: Seq<Seq<u8>>, acc: (int, int, int)) -> (int, int, int)
    decreases segs.len(),
{
    if segs.len() == 0 {
        acc
    } else {
        let c = spec_cube(segs[0]);
        max_cube(
            segs.skip(1),
            (
                vstd::math::max(acc.0, c.0),
                vstd::math::max(acc.1, c.1),
                vstd::math::max(acc.2, c.2),
            ),
        )
    }
}

/// The power of the game on `l`: the product of its minimal bag's counts.
pub open spec fn spec_power(l: Seq<u8>) -> int {
    let m = max_cube(spec_split(after_colon(l), 59), (0, 0, 0));
    m.0 * m.1 * m.2
}

/// The powers of all games, summed.
pub open spec fn power_sum(ls: Seq<Seq<u8>>) -> int
    decreases ls.len(),
{
    if ls.len() == 0 {
        0
    } else {
        spec_power(ls[0]) + power_sum(ls.skip(1))
    }
}

fn game_power(line: &Vec<u8>) -> (r: u64)
    ensures
        spec_power(line@) <= u64::MAX ==> r == spec_power(line@),
        r <= spec_power(line@),
        0 <= spec_power(line@),
{
    let data = data_after_colon(line);
    let segs = split_on(data.as_slice(), 59);
    let ghost ss = spec_split(after_colon(line@), 59);
    proof {
        assert(segs@.map_values(|l: Vec<u8>| l@) =~= ss);
        assert(ss.skip(0) =~= ss);
    }
    let mut mr: u32 = 0;
    let mut mg: u32 = 0;
    let mut mb: u32 = 0;
    let mut k: usize = 0;
    while k < segs.len()
        invariant
            segs@.map_values(|l: Vec<u8>| l@) =~= ss,
            k <= segs@.len(),
            max_cube(ss, (0, 0, 0)) == max_cube(
                ss.skip(k as int),
                (mr as int, mg as int, mb as int),
            ),
        decreases segs@.len() - k,
    {
        proof {
            assert(ss.skip(k as int)[0] == ss[k as int]);
            assert(ss.skip(k as int).skip(1) =~= ss.skip(k as int + 1));
            assert(segs@[k as int]@ == ss[k as int]);
        }
        let c = cube_of_bytes(segs[k].as_slice());
        if c.0 > mr {
            mr = c.0;
        }
        if c.1 > mg {
            mg = c.1;
        }
        if c.2 > mb {
            mb = c.2;
        }
        k = k + 1;
    }
    proof {
        assert(ss.skip(ss.len() as int) =~= Seq::<Seq<u8>>::empty());
    }
    proof {
        assert((mr as int) * (mg as int) < 0x10000000000000000 && 0 <= (mr as int) * (mg as int))
            by (nonlinear_arith)
            requires
                0 <= (mr as int) < 0x100000000 && 0 <= (mg as int) < 0x100000000,
        ;
    }
    let p1: u64 = (mr as u64) * (mg as u64);
    if mb == 0 {
        proof {
            assert(p1 as int * 0 == 0) by (nonlinear_arith);
        }
        return 0;
    }
    if p1 > u64::MAX / (mb as u64) {
        proof {
            assert(p1 as int * (mb as int) > u64::MAX) by (nonlinear_arith)
                requires
                    p1 as int > (u64::MAX as int) / (mb as int) && 0 < (mb as int)
                        < 0x100000000 && 0 <= p1,
            ;
            assert(0 <= p1 as int * (mb as int)) by (nonlinear_arith)
                requires
                    0 <= p1 && 0 <= mb,
            ;
        }
        return u64::MAX;
    }
    proof {
        assert(p1 as int * (mb as int) <= u64::MAX && 0 <= p1 as int * (mb as int))
            by (nonlinear_arith)
            requires
                0 <= p1 as int <= (u64::MAX as int) / (mb as int) && 0 < mb,
        ;
    }
    p1 * (mb as u64)
}

/// Sums the powers of all games. The caps are machine limits: each game's
/// power, and the sum of them all, must fit.
pub fn part_2(input: &Vec<Vec<u8>>) -> (r: u64)
    requires
        input@.len() <= 1000000,
        forall|k: int| 0 <= k < input@.len() ==> spec_power((#[trigger] input@[k])@) <= u32::MAX,
    ensures
        r == power_sum(input@.map_values(|l: Vec<u8>| l@)),
{
    let ghost ls = input@.map_values(|l: Vec<u8>| l@);
    proof {
        assert(ls.skip(0) =~= ls);
    }
    let mut sum: u64 = 0;
    let mut k: usize = 0;
    while k < input.len()
        invariant
            input@.len() <= 1000000,
            ls == input@.map_values(|l: Vec<u8>| l@),
            forall|m: int| 0 <= m < input@.len() ==> spec_power((#[trigger] input@[m])@)
                <= u32::MAX,
            k <= input@.len(),
            sum <= (k as int) * 0x100000000,
            sum + power_sum(ls.skip(k as int)) == power_sum(ls),
        decreases input@.len() - k,
    {
        proof {
            assert(ls.skip(k as int)[0] == ls[k as int]);
            assert(ls.skip(k as int).skip(1) =~= ls.skip(k as int + 1));
            assert((k as int) * 0x100000000 + 0x100000000 == (k as int + 1) * 0x100000000)
                by (nonlinear_arith);
            assert((k as int + 1) * 0x100000000 <= 1000000 * 0x100000000) by (nonlinear_arith)
                requires
                    0 <= k as int + 1 <= 1000000,
            ;
        }
        let p = game_power(&input[k]);
        sum = sum + p;
        k = k + 1;
    }
    proof {
        assert(ls.skip(ls.len() as int) =~= Seq::<Seq<u8>>::empty());
    }
    sum
}

} // verus!
