//! Camel card hands: five cards and a bid per line. Hands rank first by
//! type and then card by card; the winnings are each bid times the hand's
//! one-based rank in that order. In the second part jokers stand in for
//! whatever card makes the strongest type, while ranking weakest as a card.

use crate::text::digits_val;
use crate::text::is_digit_seq;
use crate::text::lines_of;
use crate::text::parse_u64;
use crate::text::spec_lines;
use crate::text::spec_words;
use crate::text::words_of;
use vstd::prelude::*;
use vstd::string::StringSliceAdditionalSpecFns;

verus! {

/// Five cards of one hand, and whether jokers are in play.
#[derive(Clone, Copy, Debug)]
pub struct Cards {
    pub inner: [u8; 5],
    pub jokers: bool,
}

/// The hand types, weakest first.
#[derive(Clone, Copy, Debug, PartialEq, Eq, Structural)]
pub enum HandType {
    HighCard,
    OnePair,
    TwoPair,
    ThreeOfAKind,
    FullHouse,
    FourOfAKind,
    FiveOfAKind,
}

/// How often the card `c` occurs in `s`.
pub open spec fn card_cnt(s: Seq<u8>, c: u8) -> int
    decreases s.len(),
{
    if s.len() == 0 {
        0
    } else {
        card_cnt(s.drop_last(), c) + (if s.last() == c {
            1int
        } else {
            0int
        })
    }
}

/// The number of equal-card pairs in `s`: each card added contributes one
/// pair per equal card before it. Over five cards this count identifies
/// the hand type, and it grows exactly with the type's strength.
pub open spec fn eq_pairs(s: Seq<u8>) -> int
    decreases s.len(),
{
    if s.len() == 0 {
        0
    } else {
        eq_pairs(s.drop_last()) + card_cnt(s.drop_last(), s.last())
    }
}

/// The largest count of any non-joker card of `s` (zero when all five are
/// jokers), looking at positions 0 through `i - 1`.
pub open spec fn max_nonjoker_cnt(s: Seq<u8>, i: int) -> int
    decreases i,
{
    if i <= 0 {
        0
    } else {
        let prev = max_nonjoker_cnt(s, i - 1);
        if 0 <= i - 1 < s.len() && s[i - 1] != 74 && card_cnt(s, s[i - 1]) > prev {
            card_cnt(s, s[i - 1])
        } else {
            prev
        }
    }
}

/// The pair count of the hand once its jokers have joined the most
/// numerous other card: the jokers' own pairs are given up and the best
/// stack of `m` cards grows to `m` plus the joker count.
pub open spec fn joker_pairs(s: Seq<u8>) -> int {
    let j = card_cnt(s, 74);
    let m = max_nonjoker_cnt(s, s.len() as int);
    eq_pairs(s) - j * (j - 1) / 2 + (m + j) * (m + j - 1) / 2 - m * (m - 1) / 2
}

/// The pair count that decides the hand's type.
pub open spec fn type_pairs(s: Seq<u8>, jokers: bool) -> int {
    if jokers {
        joker_pairs(s)
    } else {
        eq_pairs(s)
    }
}

/// The hand type a pair count stands for: 0, 1, 2, 3, 4, 6 and 10 pairs
/// are the seven shapes five cards can take.
pub open spec fn spec_hand_type(p: int) -> HandType {
    if p >= 10 {
        HandType::FiveOfAKind
    } else if p >= 6 {
        HandType::FourOfAKind
    } else if p >= 4 {
        HandType::FullHouse
    } else if p >= 3 {
        HandType::ThreeOfAKind
    } else if p >= 2 {
        HandType::TwoPair
    } else if p >= 1 {
        HandType::OnePair
    } else {
        HandType::HighCard
    }
}

/// The strength of one card, weakest 0: jokers rank the cards `J 2-9 T Q
/// K A`, no jokers `2-9 T J Q K A`. An unknown byte ranks below every
/// card.
pub open spec fn card_rank(c: u8, jokers: bool) -> int {
    if c == 74 {
        if jokers {
            0
        } else {
            9
        }
    } else if 50 <= c <= 57 {
        c - 50 + (if jokers {
            1int
        } else {
            0int
        })
    } else if c == 84 {
        if jokers {
            9
        } else {
            8
        }
    } else if c == 81 {
        10
    } else if c == 75 {
        11
    } else if c == 65 {
        12
    } else {
        -1
    }
}

fn rank_of(c: u8, jokers: bool) -> (r: i32)
    ensures
        r == card_rank(c, jokers),
{
    if c == 74 {
        if jokers {
            0
        } else {
            9
        }
    } else if 50 <= c && c <= 57 {
        (c - 50) as i32 + (if jokers {
            1
        } else {
            0
        })
    } else if c == 84 {
        if jokers {
            9
        } else {
            8
        }
    } else if c == 81 {
        10
    } else if c == 75 {
        11
    } else if c == 65 {
        12
    } else {
        -1
    }
}

impl HandType {
    /// The type of the hand with its jokers standing in for the most
    /// numerous other card.
    pub fn new_with_jokers(cards: Cards) -> (r: HandType)
        ensures
            r == spec_hand_type(joker_pairs(cards.inner@)),
    {
        let p = count_pairs(&cards.inner);
        let j = count_card(&cards.inner, 74);
        let m = max_other_cnt(&cards.inner);
        proof {
            assert(0 <= j * (j - 1) && j * (j - 1) <= 20 && 0 <= m * (m - 1) && m * (m - 1) <= 20
                && 0 <= (m + j) * (m + j - 1) && (m + j) * (m + j - 1) <= 90) by (nonlinear_arith)
                requires
                    0 <= j <= 5 && 0 <= m <= 5,
            ;
        }
        let adjusted: i32 = p - j * (j - 1) / 2 + (m + j) * (m + j - 1) / 2 - m * (m - 1) / 2;
        hand_type_of(adjusted)
    }

    /// The type of the hand as dealt.
    pub fn new(cards: Cards) -> (r: HandType)
        ensures
            r == spec_hand_type(eq_pairs(cards.inner@)),
    {
        hand_type_of(count_pairs(&cards.inner))
    }
}

fn hand_type_of(p: i32) -> (r: HandType)
    ensures
        r == spec_hand_type(p as int),
{
    if p >= 10 {
        HandType::FiveOfAKind
    } else if p >= 6 {
        HandType::FourOfAKind
    } else if p >= 4 {
        HandType::FullHouse
    } else if p >= 3 {
        HandType::ThreeOfAKind
    } else if p >= 2 {
        HandType::TwoPair
    } else if p >= 1 {
        HandType::OnePair
    } else {
        HandType::HighCard
    }
}

fn count_card(cards: &[u8; 5], c: u8) -> (r: i32)
    ensures
        r == card_cnt(cards@, c),
        0 <= r <= 5,
{
    let mut cnt: i32 = 0;
    let mut i: usize = 0;
    while i < 5
        invariant
            i <= 5,
            cards@.len() == 5,
            cnt == card_cnt(cards@.take(i as int), c),
            0 <= cnt <= i,
        decreases 5 - i,
    {
        proof {
            assert(cards@.take(i as int + 1).drop_last() =~= cards@.take(i as int));
            assert(cards@.take(i as int + 1).last() == cards@[i as int]);
        }
        if cards[i] == c {
            cnt = cnt + 1;
        }
        i = i + 1;
    }
    proof {
        assert(cards@.take(5) =~= cards@);
    }
    cnt
}

fn count_pairs(cards: &[u8; 5]) -> (r: i32)
    ensures
        r == eq_pairs(cards@),
        0 <= r <= 10,
{
    let mut p: i32 = 0;
    let mut i: usize = 0;
    while i < 5
        invariant
            i <= 5,
            cards@.len() == 5,
            p == eq_pairs(cards@.take(i as int)),
            0 <= p <= 10,
        decreases 5 - i,
    {
        proof {
            assert(cards@.take(i as int + 1).drop_last() =~= cards@.take(i as int));
            assert(cards@.take(i as int + 1).last() == cards@[i as int]);
        }
        let mut c: i32 = 0;
        let mut j: usize = 0;
        while j < i
            invariant
                j <= i < 5,
                cards@.len() == 5,
                c == card_cnt(cards@.take(j as int), cards@[i as int]),
                0 <= c <= j,
            decreases i - j,
        {
            proof {
                assert(cards@.take(j as int + 1).drop_last() =~= cards@.take(j as int));
                assert(cards@.take(j as int + 1).last() == cards@[j as int]);
            }
            if cards[j] == cards[i] {
                c = c + 1;
            }
            j = j + 1;
        }
        proof {
            lemma_card_cnt_prefix(cards@, cards@[i as int], i as int);
            lemma_eq_pairs_range(cards@.take(i as int + 1));
            assert((i as int + 1) * (i as int + 1 - 1) <= 20) by (nonlinear_arith)
                requires
                    i as int + 1 <= 5,
            ;
        }
        p = p + c;
        i = i + 1;
    }
    proof {
        assert(cards@.take(5) =~= cards@);
    }
    p
}

/// Counting in a prefix is counting in the prefix.
proof fn lemma_card_cnt_prefix(s: Seq<u8>, c: u8, i: int)
    requires
        0 <= i <= s.len(),
    ensures
        card_cnt(s.take(i), c) == card_cnt(s.take(i).take(i), c),
{
    assert(s.take(i).take(i) =~= s.take(i));
}

proof fn lemma_card_cnt_range(s: Seq<u8>, c: u8)
    ensures
        0 <= card_cnt(s, c) <= s.len(),
    decreases s.len(),
{
    if s.len() > 0 {
        lemma_card_cnt_range(s.drop_last(), c);
    }
}

proof fn lemma_eq_pairs_range(s: Seq<u8>)
    ensures
        0 <= eq_pairs(s) * 2 <= s.len() * (s.len() - 1),
    decreases s.len(),
{
    if s.len() > 0 {
        lemma_eq_pairs_range(s.drop_last());
        lemma_card_cnt_range(s.drop_last(), s.last());
        assert((s.len() - 1) * (s.len() - 2) + 2 * (s.len() - 1) == s.len() * (s.len() - 1))
            by (nonlinear_arith)
            requires
                s.len() >= 1,
        ;
    }
}

fn max_other_cnt(cards: &[u8; 5]) -> (r: i32)
    ensures
        r == max_nonjoker_cnt(cards@, 5),
        0 <= r <= 5,
{
    let mut m: i32 = 0;
    let mut i: usize = 0;
    while i < 5
        invariant
            i <= 5,
            cards@.len() == 5,
            m == max_nonjoker_cnt(cards@, i as int),
            0 <= m <= 5,
        decreases 5 - i,
    {
        if cards[i] != 74 {
            let c = count_card(cards, cards[i]);
            if c > m {
                m = c;
            }
        }
        i = i + 1;
    }
    m
}

/// A hand: its type and its bid.
#[derive(Clone, Copy, Debug)]
pub struct Hand {
    pub hand: HandType,
    pub bid: u64,
}

impl Hand {
    /// The hand as dealt, with its bid.
    pub fn new(cards: Cards, bid: u64) -> (r: Hand)
        ensures
            r.hand == spec_hand_type(eq_pairs(cards.inner@)),
            r.bid == bid,
    {
        Hand { hand: HandType::new(cards), bid }
    }

    /// The hand with jokers in play, with its bid.
    pub fn new_with_jokers(cards: Cards, bid: u64) -> (r: Hand)
        ensures
            r.hand == spec_hand_type(joker_pairs(cards.inner@)),
            r.bid == bid,
    {
        Hand { hand: HandType::new_with_jokers(cards), bid }
    }
}

/// The full ranking key of a hand: the type-deciding pair count first,
/// then the five card strengths in order, packed base 13.
pub open spec fn hand_key(s: Seq<u8>, jokers: bool) -> int {
    ((((type_pairs(s, jokers) * 13 + card_rank(s[0], jokers)) * 13 + card_rank(s[1], jokers)) * 13
        + card_rank(s[2], jokers)) * 13 + card_rank(s[3], jokers)) * 13 + card_rank(s[4], jokers)
}

fn key_of(cards: &[u8; 5], jokers: bool) -> (r: i64)
    ensures
        r == hand_key(cards@, jokers),
{
    let p: i32 = if jokers {
        let pr = count_pairs(cards);
        let j = count_card(cards, 74);
        let m = max_other_cnt(cards);
        proof {
            assert(0 <= j * (j - 1) && j * (j - 1) <= 20 && 0 <= m * (m - 1) && m * (m - 1) <= 20
                && 0 <= (m + j) * (m + j - 1) && (m + j) * (m + j - 1) <= 90) by (nonlinear_arith)
                requires
                    0 <= j <= 5 && 0 <= m <= 5,
            ;
        }
        pr - j * (j - 1) / 2 + (m + j) * (m + j - 1) / 2 - m * (m - 1) / 2
    } else {
        count_pairs(cards)
    };
    let r0 = rank_of(cards[0], jokers);
    let r1 = rank_of(cards[1], jokers);
    let r2 = rank_of(cards[2], jokers);
    let r3 = rank_of(cards[3], jokers);
    let r4 = rank_of(cards[4], jokers);
    (((((p as i64) * 13 + (r0 as i64)) * 13 + (r1 as i64)) * 13 + (r2 as i64)) * 13 + (r3 as i64))
        * 13 + (r4 as i64)
}

/// The line spells five cards and a bid.
pub open spec fn hand_line_ok(l: Seq<u8>) -> bool {
    let ws = spec_words(l);
    ws.len() == 2 && ws[0].len() == 5 && is_digit_seq(ws[1]) && digits_val(ws[1]) <= u64::MAX
}

/// The ranking key and bid of a well-formed hand line.
pub open spec fn keyed_hand(l: Seq<u8>, jokers: bool) -> (int, int) {
    (hand_key(spec_words(l)[0], jokers), digits_val(spec_words(l)[1]) as int)
}

/// The keyed hands of the well-formed lines, in order.
pub open spec fn keyed_hands(ls: Seq<Seq<u8>>, jokers: bool) -> Seq<(int, int)>
    decreases ls.len(),
{
    if ls.len() == 0 {
        Seq::empty()
    } else {
        (if hand_line_ok(ls[0]) {
            seq![keyed_hand(ls[0], jokers)]
        } else {
            Seq::empty()
        }) + keyed_hands(ls.skip(1), jokers)
    }
}

/// `x` inserted behind every entry whose key is at most its own: the
/// stable insertion that ranks the hands.
pub open spec fn ins_le(s: Seq<(int, int)>, x: (int, int)) -> Seq<(int, int)>
    decreases s.len(),
{
    if s.len() == 0 {
        seq![x]
    } else if s[0].0 <= x.0 {
        seq![s[0]] + ins_le(s.skip(1), x)
    } else {
        seq![x] + s
    }
}

/// Inserting at the scan position is the stable insertion.
proof fn lemma_ins_le_at(s: Seq<(int, int)>, x: (int, int), i: int)
    requires
        0 <= i <= s.len(),
        forall|j: int| 0 <= j < i ==> (#[trigger] s[j]).0 <= x.0,
        i < s.len() ==> s[i].0 > x.0,
    ensures
        ins_le(s, x) =~= s.take(i).push(x) + s.skip(i),
    decreases i,
{
    if i == 0 {
        if s.len() == 0 {
            assert(ins_le(s, x) =~= s.take(0).push(x) + s.skip(0));
        } else {
            assert(s[0].0 > x.0);
            assert(ins_le(s, x) =~= s.take(0).push(x) + s.skip(0));
        }
    } else {
        assert(s[0].0 <= x.0);
        assert forall|j: int| 0 <= j < i - 1 implies (#[trigger] s.skip(1)[j]).0 <= x.0 by {
            assert(s.skip(1)[j] == s[j + 1]);
        }
        assert(i - 1 < s.skip(1).len() ==> s.skip(1)[i - 1].0 > x.0);
        lemma_ins_le_at(s.skip(1), x, i - 1);
        assert(ins_le(s, x) =~= seq![s[0]] + ins_le(s.skip(1), x));
        assert(s.skip(1).take(i - 1) =~= s.take(i).skip(1));
        assert forall|m: int|
            0 <= m < s.take(i).push(x).len() + s.skip(i).len() implies (seq![s[0]] + (s.skip(
            1,
        ).take(i - 1).push(x) + s.skip(1).skip(i - 1)))[m] == (s.take(i).push(x) + s.skip(
            i,
        ))[m] by {
            assert(s.skip(1).skip(i - 1) =~= s.skip(i));
        }
    }
}

/// The hands ranked weakest first by stable insertion, one after another.
pub open spec fn rank_fold(hs: Seq<(int, int)>, acc: Seq<(int, int)>) -> Seq<(int, int)>
    decreases hs.len(),
{
    if hs.len() == 0 {
        acc
    } else {
        rank_fold(hs.skip(1), ins_le(acc, hs[0]))
    }
}

/// Each bid times its hand's rank, counted from `rank0`, summed.
pub open spec fn winnings(s: Seq<(int, int)>, rank0: int) -> int
    decreases s.len(),
{
    if s.len() == 0 {
        0
    } else {
        rank0 * s[0].1 + winnings(s.skip(1), rank0 + 1)
    }
}

/// `v` saturated at the largest `u64`.
pub open spec fn cap_u64(v: int) -> int {
    if v > u64::MAX {
        u64::MAX as int
    } else {
        v
    }
}

/// Every key of `s` is at most `b`.
pub open spec fn keys_le(s: Seq<(int, int)>, b: int) -> bool {
    forall|j: int| 0 <= j < s.len() ==> (#[trigger] s[j]).0 <= b
}

fn sorted_keyed_hands(input: &str, jokers: bool) -> (r: Vec<(i64, u64)>)
    ensures
        ({
            let ls = spec_lines(input.spec_bytes());
            (forall|i: int| 0 <= i < ls.len() ==> hand_line_ok(#[trigger] ls[i])) ==> r@.map_values(
                |h: (i64, u64)| (h.0 as int, h.1 as int),
            ) == rank_fold(keyed_hands(ls, jokers), Seq::empty())
        }),
        forall|p: int, q: int|
            0 <= p < q < r@.len() ==> (#[trigger] r@[p]).0 <= (#[trigger] r@[q]).0,
{
    let ghost ls = spec_lines(input.spec_bytes());
    let lines = lines_of(input);
    let mut out: Vec<(i64, u64)> = Vec::new();
    let mut k: usize = 0;
    while k < lines.len()
        invariant
            lines@.map_values(|l: Vec<u8>| l@) =~= ls,
            k <= lines@.len(),
            (forall|i: int| 0 <= i < k ==> hand_line_ok(#[trigger] ls[i])) ==> out@.map_values(
                |h: (i64, u64)| (h.0 as int, h.1 as int),
            ) == rank_fold(keyed_hands(ls.take(k as int), jokers), Seq::empty()),
            forall|p: int, q: int|
                0 <= p < q < out@.len() ==> (#[trigger] out@[p]).0 <= (#[trigger] out@[q]).0,
        decreases lines@.len() - k,
    {
        proof {
            assert(lines@[k as int]@ == ls[k as int]);
        }
        let words = words_of(lines[k].as_slice());
        let ghost ws = spec_words(ls[k as int]);
        proof {
            assert(words@.map_values(|w: Vec<u8>| w@) =~= ws);
        }
        if words.len() == 2 && words[0].len() == 5 {
            proof {
                assert(words@[0]@ == ws[0]);
                assert(words@[1]@ == ws[1]);
            }
            match parse_u64(words[1].as_slice()) {
                Some(bid) => {
                    let w = &words[0];
                    let cards: [u8; 5] = [w[0], w[1], w[2], w[3], w[4]];
                    proof {
                        assert(cards@ =~= ws[0]);
                    }
                    let key = key_of(&cards, jokers);
                    // scan for the first strictly larger key, insert there
                    let mut i: usize = 0;
                    while i < out.len() && out[i].0 <= key
                        invariant
                            i <= out@.len(),
                            forall|j: int| 0 <= j < i ==> (#[trigger] out@[j]).0 <= key,
                            forall|p: int, q: int|
                                0 <= p < q < out@.len() ==> (#[trigger] out@[p]).0 <= (
                                #[trigger] out@[q]).0,
                        decreases out@.len() - i,
                    {
                        i = i + 1;
                    }
                    let ghost prev = out@.map_values(|h: (i64, u64)| (h.0 as int, h.1 as int));
                    out.insert(i, (key, bid));
                    proof {
                        assert(out@.map_values(|h: (i64, u64)| (h.0 as int, h.1 as int))
                            =~= prev.take(i as int).push((key as int, bid as int)) + prev.skip(
                            i as int,
                        ));
                        lemma_ins_le_at(prev, (key as int, bid as int), i as int);
                        assert forall|p: int, q: int|
                            0 <= p < q < out@.len() implies (#[trigger] out@[p]).0 <= (
                        #[trigger] out@[q]).0 by {
                            if p < i && q == i {
                            } else if p == i && q > i {
                                assert(out@[q].0 == prev[q - 1].0);
                            } else if p < i && q > i {
                                assert(out@[p].0 == prev[p].0 && out@[q].0 == prev[q - 1].0);
                            } else if p > i && q > i {
                                assert(out@[p].0 == prev[p - 1].0 && out@[q].0 == prev[q - 1].0);
                            } else {
                                assert(out@[p].0 == prev[p].0 && out@[q].0 == prev[q].0);
                            }
                        }
                    }
                },
                None => {},
            }
        }
        proof {
            assert(ls.take(k as int + 1) =~= ls.take(k as int).push(ls[k as int]));
            if forall|i2: int| 0 <= i2 < k + 1 ==> hand_line_ok(#[trigger] ls[i2]) {
                lemma_keyed_hands_push(ls.take(k as int), ls[k as int], jokers);
            }
        }
        k = k + 1;
    }
    proof {
        assert(ls.take(ls.len() as int) =~= ls);
    }
    out
}

/// Appending a well-formed line appends its keyed hand, and the ranking
/// fold inserts it last.
proof fn lemma_keyed_hands_push(ls: Seq<Seq<u8>>, l: Seq<u8>, jokers: bool)
    requires
        hand_line_ok(l),
    ensures
        keyed_hands(ls.push(l), jokers) =~= keyed_hands(ls, jokers).push(keyed_hand(l, jokers)),
        rank_fold(keyed_hands(ls.push(l), jokers), Seq::empty()) == ins_le(
            rank_fold(keyed_hands(ls, jokers), Seq::empty()),
            keyed_hand(l, jokers),
        ),
{
    lemma_keyed_hands_push_seq(ls, l, jokers);
    lemma_rank_fold_push(keyed_hands(ls, jokers), keyed_hand(l, jokers), Seq::empty());
    assert(keyed_hands(ls.push(l), jokers) =~= keyed_hands(ls, jokers).push(
        keyed_hand(l, jokers),
    ));
}

proof fn lemma_keyed_hands_push_seq(ls: Seq<Seq<u8>>, l: Seq<u8>, jokers: bool)
    requires
        hand_line_ok(l),
    ensures
        keyed_hands(ls.push(l), jokers) =~= keyed_hands(ls, jokers).push(keyed_hand(l, jokers)),
    decreases ls.len(),
{
    if ls.len() == 0 {
        assert(ls.push(l)[0] == l);
        assert(ls.push(l).skip(1) =~= Seq::<Seq<u8>>::empty());
        assert(keyed_hands(ls.push(l).skip(1), jokers) =~= Seq::<(int, int)>::empty());
        assert(keyed_hands(ls.push(l), jokers) =~= seq![keyed_hand(ls.push(l)[0], jokers)]
            + keyed_hands(ls.push(l).skip(1), jokers));
        assert(keyed_hands(ls.push(l), jokers) =~= seq![keyed_hand(l, jokers)]);
        assert(keyed_hands(ls, jokers) =~= Seq::<(int, int)>::empty());
    } else {
        assert(ls.push(l)[0] == ls[0]);
        assert(ls.push(l).skip(1) =~= ls.skip(1).push(l));
        lemma_keyed_hands_push_seq(ls.skip(1), l, jokers);
        if hand_line_ok(ls[0]) {
            assert(keyed_hands(ls.push(l), jokers) =~= seq![keyed_hand(ls[0], jokers)]
                + keyed_hands(ls.skip(1).push(l), jokers));
            assert(keyed_hands(ls, jokers) =~= seq![keyed_hand(ls[0], jokers)] + keyed_hands(
                ls.skip(1),
                jokers,
            ));
        } else {
            assert(keyed_hands(ls.push(l), jokers) =~= keyed_hands(ls.skip(1).push(l), jokers));
            assert(keyed_hands(ls, jokers) =~= keyed_hands(ls.skip(1), jokers));
        }
    }
}

/// Folding one more hand is inserting it into the fold so far.
proof fn lemma_rank_fold_push(hs: Seq<(int, int)>, x: (int, int), acc: Seq<(int, int)>)
    ensures
        rank_fold(hs.push(x), acc) == ins_le(rank_fold(hs, acc), x),
    decreases hs.len(),
{
    if hs.len() == 0 {
        assert(hs.push(x)[0] == x);
        assert(hs.push(x).skip(1) =~= Seq::<(int, int)>::empty());
        assert(rank_fold(hs.push(x), acc) == rank_fold(
            Seq::<(int, int)>::empty(),
            ins_le(acc, x),
        ));
        assert(rank_fold(hs, acc) == acc);
    } else {
        assert(hs.push(x)[0] == hs[0]);
        assert(hs.push(x).skip(1) =~= hs.skip(1).push(x));
        assert(rank_fold(hs.push(x), acc) == rank_fold(
            hs.skip(1).push(x),
            ins_le(acc, hs[0]),
        ));
        lemma_rank_fold_push(hs.skip(1), x, ins_le(acc, hs[0]));
        assert(rank_fold(hs, acc) == rank_fold(hs.skip(1), ins_le(acc, hs[0])));
    }
}

fn total_winnings(ranked: &Vec<(i64, u64)>) -> (r: u64)
    ensures
        r == cap_u64(winnings(ranked@.map_values(|h: (i64, u64)| (h.0 as int, h.1 as int)), 1)),
{
    let ghost hs = ranked@.map_values(|h: (i64, u64)| (h.0 as int, h.1 as int));
    proof {
        assert(hs.skip(0) =~= hs);
        assert(forall|j: int| 0 <= j < hs.len() ==> 0 <= (#[trigger] hs[j]).1);
        lemma_winnings_nonneg(hs, 1);
    }
    let mut sum: u128 = 0;
    let mut k: usize = 0;
    while k < ranked.len()
        invariant
            hs == ranked@.map_values(|h: (i64, u64)| (h.0 as int, h.1 as int)),
            k <= ranked@.len(),
            sum <= 0xffffffffffffffff0000000000000001u128,
            sum <= u64::MAX ==> sum + winnings(hs.skip(k as int), k as int + 1) == winnings(
                hs,
                1,
            ),
            sum > u64::MAX ==> winnings(hs, 1) > u64::MAX,
        decreases ranked@.len() - k,
    {
        proof {
            assert(hs.skip(k as int)[0] == hs[k as int]);
            assert(hs.skip(k as int).skip(1) =~= hs.skip(k as int + 1));
            assert(forall|j: int| 0 <= j < hs.skip(k as int + 1).len() ==> 0 <= (
            #[trigger] hs.skip(k as int + 1)[j]).1);
            lemma_winnings_nonneg(hs.skip(k as int + 1), k as int + 2);
            assert((k as int + 1) * (ranked@[k as int].1 as int) < 0x10000000000000000
                * 0x10000000000000000 && 0 <= (k as int + 1) * (ranked@[k as int].1 as int))
                by (nonlinear_arith)
                requires
                    0 <= k as int + 1 < 0x10000000000000000 && 0 <= (ranked@[k as int].1 as int)
                        < 0x10000000000000000,
            ;
        }
        if sum <= u64::MAX as u128 {
            let rank: u128 = (k as u128) + 1;
            let bid: u128 = ranked[k].1 as u128;
            proof {
                assert((rank as int) * (bid as int) == (k as int + 1) * (
                ranked@[k as int].1 as int)) by (nonlinear_arith)
                    requires
                        rank as int == k as int + 1 && bid as int == ranked@[k as int].1 as int,
                ;
                assert((rank as int) * (bid as int) <= 0xfffffffffffffffe0000000000000001u128)
                    by (nonlinear_arith)
                    requires
                        0 <= (rank as int) && (rank as int) <= 0xffffffffffffffffu128 && 0 <= (
                        bid as int) && (bid as int) <= 0xffffffffffffffffu128,
                ;
            }
            sum = sum + rank * bid;
        }
        k = k + 1;
    }
    proof {
        assert(winnings(hs.skip(hs.len() as int), hs.len() as int + 1) == 0);
    }
    if sum > u64::MAX as u128 {
        u64::MAX
    } else {
        sum as u64
    }
}

proof fn lemma_winnings_nonneg(s: Seq<(int, int)>, rank0: int)
    requires
        1 <= rank0,
        forall|j: int| 0 <= j < s.len() ==> 0 <= (#[trigger] s[j]).1,
    ensures
        0 <= winnings(s, rank0),
    decreases s.len(),
{
    if s.len() > 0 {
        assert(forall|j: int| 0 <= j < s.skip(1).len() ==> 0 <= (#[trigger] s.skip(1)[j]).1);
        lemma_winnings_nonneg(s.skip(1), rank0 + 1);
        assert(0 <= rank0 * s[0].1) by (nonlinear_arith)
            requires
                0 <= rank0 && 0 <= s[0].1,
        ;
    }
}

/// The winnings of all hands as dealt: bids times one-based ranks in the
/// weakest-first hand order, saturated at `u64`.
pub fn part_1(input: &str) -> (r: u64)
    ensures
        ({
            let ls = spec_lines(input.spec_bytes());
            (forall|i: int| 0 <= i < ls.len() ==> hand_line_ok(#[trigger] ls[i])) ==> r == cap_u64(
                winnings(rank_fold(keyed_hands(ls, false), Seq::empty()), 1),
            )
        }),
{
    let ranked = sorted_keyed_hands(input, false);
    total_winnings(&ranked)
}

/// The winnings of all hands with jokers in play, saturated at `u64`.
pub fn part_2(input: &str) -> (r: u64)
    ensures
        ({
            let ls = spec_lines(input.spec_bytes());
            (forall|i: int| 0 <= i < ls.len() ==> hand_line_ok(#[trigger] ls[i])) ==> r == cap_u64(
                winnings(rank_fold(keyed_hands(ls, true), Seq::empty()), 1),
            )
        }),
{
    let ranked = sorted_keyed_hands(input, true);
    total_winnings(&ranked)
}

} // verus!
