//! Scratchcards: each card lists winning numbers and numbers in hand. The
//! match count scores points in the first part and wins copies of the
//! following cards in the second.

use crate::text::after_colon;
use crate::text::data_after_colon;
use crate::text::digits_val;
use crate::text::is_digit_seq;
use crate::text::lines_of;
use crate::text::parse_u64;
use crate::text::spec_lines;
use crate::text::spec_split;
use crate::text::spec_words;
use crate::text::split_on;
use crate::text::words_of;
use crate::year2023::day9::pw2;
use vstd::prelude::*;
use vstd::string::StringSliceAdditionalSpecFns;

verus! {

/// Some word of `ws` spells the number `v`.
pub open spec fn in_mask(ws: Seq<Seq<u8>>, v: int) -> bool {
    exists|k: int|
        0 <= k < ws.len() && is_digit_seq(#[trigger] ws[k]) && digits_val(ws[k]) == v
}

/// The card line has a colon and exactly one bar after it.
pub open spec fn card_line_ok(l: Seq<u8>) -> bool {
    spec_split(after_colon(l), 124).len() == 2
}

/// The winning-number membership mask a card line spells (numbers 0-99).
pub open spec fn winning_mask(l: Seq<u8>, v: int) -> bool {
    in_mask(spec_words(spec_split(after_colon(l), 124)[0]), v)
}

/// The numbers-in-hand membership mask a card line spells (numbers 0-99).
pub open spec fn having_mask(l: Seq<u8>, v: int) -> bool {
    in_mask(spec_words(spec_split(after_colon(l), 124)[1]), v)
}

fn build_mask(words: &Vec<Vec<u8>>) -> (m: Vec<bool>)
    ensures
        m@.len() == 100,
        forall|v: int|
            0 <= v < 100 ==> #[trigger] m@[v] == in_mask(
                words@.map_values(|w: Vec<u8>| w@),
                v,
            ),
{
    let ghost ws = words@.map_values(|w: Vec<u8>| w@);
    let mut m: Vec<bool> = Vec::new();
    let mut i: usize = 0;
    while i < 100
        invariant
            i <= 100,
            m@.len() == i,
            forall|v: int| 0 <= v < i ==> !m@[v],
        decreases 100 - i,
    {
        m.push(false);
        i = i + 1;
    }
    let mut k: usize = 0;
    while k < words.len()
        invariant
            ws == words@.map_values(|w: Vec<u8>| w@),
            k <= words@.len(),
            m@.len() == 100,
            forall|v: int| 0 <= v < 100 ==> #[trigger] m@[v] == in_mask(ws.take(k as int), v),
        decreases words@.len() - k,
    {
        let ghost mprev = m@;
        proof {
            assert(ws.take(k as int + 1) =~= ws.take(k as int).push(ws[k as int]));
            assert(words@[k as int]@ == ws[k as int]);
        }
        match parse_u64(words[k].as_slice()) {
            Some(n) => {
                if n < 100 {
                    m.set(n as usize, true);
                }
            },
            None => {},
        }
        proof {
            assert forall|v: int| 0 <= v < 100 implies #[trigger] m@[v] == in_mask(
                ws.take(k as int + 1),
                v,
            ) by {
                if in_mask(ws.take(k as int + 1), v) {
                    let j = choose|j: int|
                        0 <= j < k + 1 && is_digit_seq(#[trigger] ws.take(k as int + 1)[j])
                            && digits_val(ws.take(k as int + 1)[j]) == v;
                    if j < k {
                        assert(ws.take(k as int)[j] == ws.take(k as int + 1)[j]);
                        assert(in_mask(ws.take(k as int), v));
                        assert(mprev[v]);
                    }
                }
                if m@[v] {
                    if mprev[v] {
                        let j = choose|j: int|
                            0 <= j < k && is_digit_seq(#[trigger] ws.take(k as int)[j])
                                && digits_val(ws.take(k as int)[j]) == v;
                        assert(ws.take(k as int + 1)[j] == ws.take(k as int)[j]);
                        assert(in_mask(ws.take(k as int + 1), v));
                    } else {
                        assert(ws.take(k as int + 1)[k as int] == ws[k as int]);
                        assert(in_mask(ws.take(k as int + 1), v));
                    }
                }
            }
        }
        k = k + 1;
    }
    proof {
        assert(ws.take(ws.len() as int) =~= ws);
    }
    m
}

/// Reads one card per line: winning numbers, a bar, then numbers in hand,
/// all after a colon. A line without that shape is skipped; on well-formed
/// input each returned pair holds the two membership masks for 0 through
/// 99.
pub fn parse(input: &str) -> (r: Vec<(Vec<bool>, Vec<bool>)>)
    ensures
        forall|k: int|
            0 <= k < r@.len() ==> (#[trigger] r@[k]).0@.len() == 100 && r@[k].1@.len() == 100,
        ({
            let ls = spec_lines(input.spec_bytes());
            (forall|i: int| 0 <= i < ls.len() ==> card_line_ok(#[trigger] ls[i])) ==> {
                &&& r@.len() == ls.len()
                &&& forall|i: int, v: int|
                    #![trigger r@[i].0@[v]]
                    0 <= i < ls.len() && 0 <= v < 100 ==> r@[i].0@[v] == winning_mask(ls[i], v)
                        && r@[i].1@[v] == having_mask(ls[i], v)
            }
        }),
{
    let ghost ls = spec_lines(input.spec_bytes());
    let lines = lines_of(input);
    let mut out: Vec<(Vec<bool>, Vec<bool>)> = Vec::new();
    let mut k: usize = 0;
    while k < lines.len()
        invariant
            lines@.map_values(|l: Vec<u8>| l@) =~= ls,
            k <= lines@.len(),
            forall|m: int|
                0 <= m < out@.len() ==> (#[trigger] out@[m]).0@.len() == 100 && out@[m].1@.len()
                    == 100,
            (forall|i: int| 0 <= i < k ==> card_line_ok(#[trigger] ls[i])) ==> {
                &&& out@.len() == k
                &&& forall|i: int, v: int|
                    #![trigger out@[i].0@[v]]
                    0 <= i < k && 0 <= v < 100 ==> out@[i].0@[v] == winning_mask(ls[i], v)
                        && out@[i].1@[v] == having_mask(ls[i], v)
            },
        decreases lines@.len() - k,
    {
        proof {
            assert(lines@[k as int]@ == ls[k as int]);
        }
        let data = data_after_colon(&lines[k]);
        let halves = split_on(data.as_slice(), 124);
        proof {
            assert(halves@.map_values(|l: Vec<u8>| l@) =~= spec_split(after_colon(ls[k as int]), 124));
        }
        if halves.len() == 2 {
            proof {
                assert(halves@[0]@ == spec_split(after_colon(ls[k as int]), 124)[0]);
                assert(halves@[1]@ == spec_split(after_colon(ls[k as int]), 124)[1]);
            }
            let ww = words_of(halves[0].as_slice());
            let hw = words_of(halves[1].as_slice());
            proof {
                assert(ww@.map_values(|w: Vec<u8>| w@) =~= spec_words(
                    spec_split(after_colon(ls[k as int]), 124)[0],
                ));
                assert(hw@.map_values(|w: Vec<u8>| w@) =~= spec_words(
                    spec_split(after_colon(ls[k as int]), 124)[1],
                ));
            }
            let wm = build_mask(&ww);
            let hm = build_mask(&hw);
            out.push((wm, hm));
        }
        k = k + 1;
    }
    out
}

/// The number of values 0 through 99 present in both masks, counting from
/// `v` up.
pub open spec fn match_cnt(w: Seq<bool>, h: Seq<bool>, v: int) -> int
    decreases 100 - v,
{
    if v < 0 || v >= 100 {
        0
    } else {
        (if w[v] && h[v] {
            1int
        } else {
            0int
        }) + match_cnt(w, h, v + 1)
    }
}

proof fn lemma_match_cnt_bounds(w: Seq<bool>, h: Seq<bool>, v: int)
    requires
        0 <= v <= 100,
    ensures
        0 <= match_cnt(w, h, v) <= 100 - v,
    decreases 100 - v,
{
    if v < 100 {
        lemma_match_cnt_bounds(w, h, v + 1);
    }
}

fn count_matches(card: &(Vec<bool>, Vec<bool>)) -> (r: u32)
    requires
        card.0@.len() == 100,
        card.1@.len() == 100,
    ensures
        r == match_cnt(card.0@, card.1@, 0),
        r <= 100,
{
    let mut cnt: u32 = 0;
    let mut v: usize = 0;
    while v < 100
        invariant
            card.0@.len() == 100,
            card.1@.len() == 100,
            v <= 100,
            cnt <= v,
            cnt + match_cnt(card.0@, card.1@, v as int) == match_cnt(card.0@, card.1@, 0),
        decreases 100 - v,
    {
        proof {
            lemma_match_cnt_bounds(card.0@, card.1@, v as int + 1);
        }
        if card.0[v] && card.1[v] {
            cnt = cnt + 1;
        }
        v = v + 1;
    }
    proof {
        lemma_match_cnt_bounds(card.0@, card.1@, 0);
    }
    cnt
}

/// The points a card scores: nothing without a match, else a point doubled
/// for every further match.
pub open spec fn card_score(w: Seq<bool>, h: Seq<bool>) -> int {
    let m = match_cnt(w, h, 0);
    if m == 0 {
        0
    } else {
        pw2((m - 1) as nat)
    }
}

/// The card scores, summed.
pub open spec fn score_sum(cards: Seq<(Seq<bool>, Seq<bool>)>) -> int
    decreases cards.len(),
{
    if cards.len() == 0 {
        0
    } else {
        card_score(cards[0].0, cards[0].1) + score_sum(cards.skip(1))
    }
}

/// Sums the points of all cards. Every card must have at most 32 matches
/// and the total must fit; both are machine limits of the `u32` scoring.
pub fn part_1(input: &Vec<(Vec<bool>, Vec<bool>)>) -> (r: u32)
    requires
        forall|k: int|
            0 <= k < input@.len() ==> (#[trigger] input@[k]).0@.len() == 100 && input@[k].1@.len()
                == 100 && match_cnt(input@[k].0@, input@[k].1@, 0) <= 32,
        score_sum(input@.map_values(|c: (Vec<bool>, Vec<bool>)| (c.0@, c.1@))) <= u32::MAX,
    ensures
        r == score_sum(input@.map_values(|c: (Vec<bool>, Vec<bool>)| (c.0@, c.1@))),
{
    let ghost cards = input@.map_values(|c: (Vec<bool>, Vec<bool>)| (c.0@, c.1@));
    proof {
        assert(cards.skip(0) =~= cards);
        lemma_score_sum_nonneg(cards);
    }
    let mut sum: u64 = 0;
    let mut k: usize = 0;
    while k < input.len()
        invariant
            cards == input@.map_values(|c: (Vec<bool>, Vec<bool>)| (c.0@, c.1@)),
            forall|m: int|
                0 <= m < input@.len() ==> (#[trigger] input@[m]).0@.len() == 100
                    && input@[m].1@.len() == 100 && match_cnt(input@[m].0@, input@[m].1@, 0) <= 32,
            score_sum(cards) <= u32::MAX,
            k <= input@.len(),
            sum + score_sum(cards.skip(k as int)) == score_sum(cards),
            sum <= u32::MAX,
        decreases input@.len() - k,
    {
        proof {
            assert(cards.skip(k as int)[0] == cards[k as int]);
            assert(cards.skip(k as int).skip(1) =~= cards.skip(k as int + 1));
            assert(cards[k as int] == (input@[k as int].0@, input@[k as int].1@));
            lemma_score_sum_nonneg(cards.skip(k as int + 1));
            lemma_score_sum_nonneg(cards.skip(k as int));
        }
        let m = count_matches(&input[k]);
        let mut sc: u64 = 0;
        if m > 0 {
            sc = 1;
            let mut j: u32 = 0;
            while j < m - 1
                invariant
                    m <= 32,
                    j <= m - 1,
                    sc == pw2(j as nat),
                    sc <= 0x80000000u64,
                decreases m - 1 - j,
            {
                proof {
                    lemma_pw2_cap(j as nat + 1);
                }
                sc = sc * 2;
                j = j + 1;
            }
        }
        proof {
            assert(sc == card_score(cards[k as int].0, cards[k as int].1));
        }
        sum = sum + sc;
        k = k + 1;
    }
    proof {
        assert(cards.skip(cards.len() as int) =~= Seq::<(Seq<bool>, Seq<bool>)>::empty());
    }
    sum as u32
}

proof fn lemma_pw2_cap(k: nat)
    requires
        k <= 31,
    ensures
        1 <= pw2(k) <= 0x80000000,
    decreases k,
{
    if k > 0 {
        lemma_pw2_cap((k - 1) as nat);
        assert(pw2(k) == 2 * pw2((k - 1) as nat));
        lemma_pw2_mono_local(k, 31);
        assert(pw2(0) == 1);
        assert(pw2(1) == 2);
        assert(pw2(2) == 4);
        assert(pw2(3) == 8);
        assert(pw2(4) == 0x10);
        assert(pw2(5) == 0x20);
        assert(pw2(6) == 0x40);
        assert(pw2(7) == 0x80);
        assert(pw2(8) == 0x100);
        assert(pw2(9) == 0x200);
        assert(pw2(10) == 0x400);
        assert(pw2(11) == 0x800);
        assert(pw2(12) == 0x1000);
        assert(pw2(13) == 0x2000);
        assert(pw2(14) == 0x4000);
        assert(pw2(15) == 0x8000);
        assert(pw2(16) == 0x10000);
        assert(pw2(17) == 0x20000);
        assert(pw2(18) == 0x40000);
        assert(pw2(19) == 0x80000);
        assert(pw2(20) == 0x100000);
        assert(pw2(21) == 0x200000);
        assert(pw2(22) == 0x400000);
        assert(pw2(23) == 0x800000);
        assert(pw2(24) == 0x1000000);
        assert(pw2(25) == 0x2000000);
        assert(pw2(26) == 0x4000000);
        assert(pw2(27) == 0x8000000);
        assert(pw2(28) == 0x10000000);
        assert(pw2(29) == 0x20000000);
        assert(pw2(30) == 0x40000000);
        assert(pw2(31) == 0x80000000);
    }
}

proof fn lemma_pw2_mono_local(a: nat, b: nat)
    requires
        a <= b,
    ensures
        pw2(a) <= pw2(b),
    decreases b,
{
    if a < b {
        lemma_pw2_mono_local(a, (b - 1) as nat);
        lemma_pw2_pos_local((b - 1) as nat);
    }
}

proof fn lemma_pw2_pos_local(k: nat)
    ensures
        pw2(k) >= 1,
    decreases k,
{
    if k > 0 {
        lemma_pw2_pos_local((k - 1) as nat);
    }
}

proof fn lemma_score_sum_nonneg(cards: Seq<(Seq<bool>, Seq<bool>)>)
    ensures
        score_sum(cards) >= 0,
    decreases cards.len(),
{
    if cards.len() > 0 {
        lemma_score_sum_nonneg(cards.skip(1));
        let m = match_cnt(cards[0].0, cards[0].1, 0);
        if m != 0 && m > 0 {
            lemma_pw2_pos_local((m - 1) as nat);
        }
        if m < 0 {
            lemma_match_cnt_low(cards[0].0, cards[0].1, 0);
        }
    }
}

proof fn lemma_match_cnt_low(w: Seq<bool>, h: Seq<bool>, v: int)
    ensures
        match_cnt(w, h, v) >= 0,
    decreases 100 - v,
{
    if 0 <= v < 100 {
        lemma_match_cnt_low(w, h, v + 1);
    }
}

/// Copy counts after `add` more copies of cards `from` through `to - 1`.
pub open spec fn add_range(counts: Seq<int>, from: int, to: int, add: int) -> Seq<int> {
    Seq::new(
        counts.len(),
        |j: int|
            if from <= j < to {
                counts[j] + add
            } else {
                counts[j]
            },
    )
}

/// Processes cards `i` onward: every copy of a card wins one copy each of
/// the cards just after it, as many as the card has matches.
pub open spec fn cascade(ms: Seq<int>, counts: Seq<int>, i: int) -> Seq<int>
    decreases ms.len() - i,
{
    if i < 0 || i >= ms.len() {
        counts
    } else {
        cascade(
            ms,
            add_range(counts, i + 1, vstd::math::min(i + ms[i] + 1, ms.len() as int), counts[i]),
            i + 1,
        )
    }
}

/// One copy of every card.
pub open spec fn ones(n: int) -> Seq<int> {
    Seq::new(n as nat, |j: int| 1int)
}

/// The values of `s`, summed.
pub open spec fn sum_seq(s: Seq<int>) -> int
    decreases s.len(),
{
    if s.len() == 0 {
        0
    } else {
        sum_seq(s.drop_last()) + s.last()
    }
}

proof fn lemma_sum_pw2(s: Seq<int>)
    requires
        forall|j: int| 0 <= j < s.len() ==> 0 <= #[trigger] s[j] <= pw2(j as nat),
    ensures
        0 <= sum_seq(s) <= pw2(s.len() as nat) - 1,
    decreases s.len(),
{
    if s.len() > 0 {
        assert(forall|j: int|
            0 <= j < s.drop_last().len() ==> 0 <= #[trigger] s.drop_last()[j] <= pw2(j as nat));
        lemma_sum_pw2(s.drop_last());
        assert(s.last() == s[s.len() - 1]);
        assert(pw2(s.len() as nat) == 2 * pw2((s.len() - 1) as nat));
    }
}

/// The match counts of the cards.
pub open spec fn match_seq(cards: Seq<(Seq<bool>, Seq<bool>)>) -> Seq<int> {
    cards.map_values(|c: (Seq<bool>, Seq<bool>)| match_cnt(c.0, c.1, 0))
}

/// Counts the cards held once the cascade of won copies has settled: each
/// copy of a card wins one copy of each of the following cards, as many as
/// that card has matches. The card cap and the total cap are machine
/// limits: copy counts grow exponentially.
#[verifier::loop_isolation(false)]
pub fn part_2(input: &Vec<(Vec<bool>, Vec<bool>)>) -> (r: u32)
    requires
        input@.len() <= 62,
        forall|k: int|
            0 <= k < input@.len() ==> (#[trigger] input@[k]).0@.len() == 100 && input@[k].1@.len()
                == 100,
        sum_seq(
            cascade(
                match_seq(input@.map_values(|c: (Vec<bool>, Vec<bool>)| (c.0@, c.1@))),
                ones(input@.len() as int),
                0,
            ),
        ) <= u32::MAX,
    ensures
        r == sum_seq(
            cascade(
                match_seq(input@.map_values(|c: (Vec<bool>, Vec<bool>)| (c.0@, c.1@))),
                ones(input@.len() as int),
                0,
            ),
        ),
{
    let ghost ms = match_seq(input@.map_values(|c: (Vec<bool>, Vec<bool>)| (c.0@, c.1@)));
    let n = input.len();
    let mut counts: Vec<u64> = Vec::new();
    let mut i: usize = 0;
    while i < n
        invariant
            i <= n,
            counts@.len() == i,
            forall|j: int| 0 <= j < i ==> counts@[j] == 1,
        decreases n - i,
    {
        counts.push(1);
        i = i + 1;
    }
    proof {
        assert(counts@.map_values(|x: u64| x as int) =~= ones(n as int));
        lemma_pw2_pos_local(0);
    }
    let mut i: usize = 0;
    while i < n
        invariant
            i <= n,
            counts@.len() == n,
            cascade(ms, counts@.map_values(|x: u64| x as int), i as int) == cascade(
                ms,
                ones(n as int),
                0,
            ),
            forall|j: int|
                0 <= j < n ==> 0 <= #[trigger] counts@[j] <= pw2(
                    vstd::math::min(j, i as int) as nat,
                ),
        decreases n - i,
    {
        let m = count_matches(&input[i]);
        let cval = counts[i];
        let end: usize = if i + (m as usize) + 1 < n {
            i + (m as usize) + 1
        } else {
            n
        };
        proof {
            assert(ms[i as int] == match_cnt(input@[i as int].0@, input@[i as int].1@, 0));
            assert(end as int == vstd::math::min(i + ms[i as int] + 1, n as int));
            lemma_pw2_pos_local(i as nat);
            assert(pw2((i + 1) as nat) == 2 * pw2(i as nat));
        }
        let ghost c0 = counts@.map_values(|x: u64| x as int);
        let mut j: usize = i + 1;
        while j < end
            invariant
                i < j <= end,
                counts@.len() == n,
                cval <= pw2(i as nat),
                forall|jj: int|
                    0 <= jj < n ==> #[trigger] counts@[jj] as int == (if i + 1 <= jj < j {
                        c0[jj] + cval
                    } else {
                        c0[jj]
                    }),
            decreases end - j,
        {
            proof {
                assert(counts@[j as int] as int == c0[j as int]);
                assert(c0[j as int] <= pw2(vstd::math::min(j as int, i as int) as nat));
                lemma_pw2_mono_local(vstd::math::min(j as int, i as int) as nat, i as nat);
                assert(pw2((i + 1) as nat) == 2 * pw2(i as nat));
                lemma_pw2_mono_local((i + 1) as nat, 62);
                lemma_pw2_62_cap();
            }
            let add = counts[j] + cval;
            counts.set(j, add);
            j = j + 1;
        }
        proof {
            assert(counts@.map_values(|x: u64| x as int) =~= add_range(
                c0,
                i as int + 1,
                end as int,
                cval as int,
            ));
            assert forall|jj: int|
                0 <= jj < n implies 0 <= #[trigger] counts@[jj] <= pw2(
                vstd::math::min(jj, i as int + 1) as nat,
            ) by {
                if i + 1 <= jj < end {
                    assert(c0[jj] <= pw2(vstd::math::min(jj, i as int) as nat));
                    lemma_pw2_mono_local(vstd::math::min(jj, i as int) as nat, i as nat);
                } else {
                    lemma_pw2_mono_local(
                        vstd::math::min(jj, i as int) as nat,
                        vstd::math::min(jj, i as int + 1) as nat,
                    );
                }
            }
        }
        i = i + 1;
    }
    let mut sum: u64 = 0;
    let mut k: usize = 0;
    proof {
        assert(counts@.map_values(|x: u64| x as int).take(0) =~= Seq::<int>::empty());
    }
    while k < n
        invariant
            k <= n,
            counts@.len() == n,
            forall|j: int|
                0 <= j < n ==> 0 <= #[trigger] counts@[j] <= pw2(
                    vstd::math::min(j, n as int) as nat,
                ),
            sum == sum_seq(counts@.map_values(|x: u64| x as int).take(k as int)),
            sum <= 0x7fffffffffffffffu64,
        decreases n - k,
    {
        proof {
            let cs = counts@.map_values(|x: u64| x as int);
            assert(cs.take(k as int + 1).drop_last() =~= cs.take(k as int));
            assert(cs.take(k as int + 1).last() == cs[k as int]);
            assert forall|j: int|
                0 <= j < cs.take(k as int + 1).len() implies 0 <= #[trigger] cs.take(
                k as int + 1,
            )[j] <= pw2(j as nat) by {
                assert(cs.take(k as int + 1)[j] == cs[j]);
                lemma_pw2_mono_local(vstd::math::min(j, n as int) as nat, j as nat);
            }
            lemma_sum_pw2(cs.take(k as int + 1));
            lemma_pw2_62_cap();
            lemma_pw2_mono_local(vstd::math::min(k as int, n as int) as nat, 62);
            lemma_pw2_mono_local((k + 1) as nat, 62);
        }
        sum = sum + counts[k];
        k = k + 1;
    }
    proof {
        let cs = counts@.map_values(|x: u64| x as int);
        assert(cs.take(n as int) =~= cs);
        assert(cascade(ms, cs, n as int) == cs);
    }
    sum as u32
}

proof fn lemma_pw2_62_cap()
    ensures
        pw2(62) == 0x4000000000000000,
{
    assert(pw2(0) == 1);
    assert(pw2(1) == 2);
    assert(pw2(2) == 4);
    assert(pw2(3) == 8);
    assert(pw2(4) == 0x10);
    assert(pw2(5) == 0x20);
    assert(pw2(6) == 0x40);
    assert(pw2(7) == 0x80);
    assert(pw2(8) == 0x100);
    assert(pw2(9) == 0x200);
    assert(pw2(10) == 0x400);
    assert(pw2(11) == 0x800);
    assert(pw2(12) == 0x1000);
    assert(pw2(13) == 0x2000);
    assert(pw2(14) == 0x4000);
    assert(pw2(15) == 0x8000);
    assert(pw2(16) == 0x10000);
    assert(pw2(17) == 0x20000);
    assert(pw2(18) == 0x40000);
    assert(pw2(19) == 0x80000);
    assert(pw2(20) == 0x100000);
    assert(pw2(21) == 0x200000);
    assert(pw2(22) == 0x400000);
    assert(pw2(23) == 0x800000);
    assert(pw2(24) == 0x1000000);
    assert(pw2(25) == 0x2000000);
    assert(pw2(26) == 0x4000000);
    assert(pw2(27) == 0x8000000);
    assert(pw2(28) == 0x10000000);
    assert(pw2(29) == 0x20000000);
    assert(pw2(30) == 0x40000000);
    assert(pw2(31) == 0x80000000);
    assert(pw2(32) == 0x100000000);
    assert(pw2(33) == 0x200000000);
    assert(pw2(34) == 0x400000000);
    assert(pw2(35) == 0x800000000);
    assert(pw2(36) == 0x1000000000);
    assert(pw2(37) == 0x2000000000);
    assert(pw2(38) == 0x4000000000);
    assert(pw2(39) == 0x8000000000);
    assert(pw2(40) == 0x10000000000);
    assert(pw2(41) == 0x20000000000);
    assert(pw2(42) == 0x40000000000);
    assert(pw2(43) == 0x80000000000);
    assert(pw2(44) == 0x100000000000);
    assert(pw2(45) == 0x200000000000);
    assert(pw2(46) == 0x400000000000);
    assert(pw2(47) == 0x800000000000);
    assert(pw2(48) == 0x1000000000000);
    assert(pw2(49) == 0x2000000000000);
    assert(pw2(50) == 0x4000000000000);
    assert(pw2(51) == 0x8000000000000);
    assert(pw2(52) == 0x10000000000000);
    assert(pw2(53) == 0x20000000000000);
    assert(pw2(54) == 0x40000000000000);
    assert(pw2(55) == 0x80000000000000);
    assert(pw2(56) == 0x100000000000000);
    assert(pw2(57) == 0x200000000000000);
    assert(pw2(58) == 0x400000000000000);
    assert(pw2(59) == 0x800000000000000);
    assert(pw2(60) == 0x1000000000000000);
    assert(pw2(61) == 0x2000000000000000);
    assert(pw2(62) == 0x4000000000000000);
}


} // verus!
