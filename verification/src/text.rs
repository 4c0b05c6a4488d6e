//! Byte-level text helpers shared by the puzzle modules: splitting input into
//! lines or fields and reading decimal numbers, each against an exact
//! sequence-level specification.

use vstd::prelude::*;
use vstd::string::StringSliceAdditionalSpecFns;

verus! {

/// A line with a trailing carriage return removed, as `str::lines` does.
pub open spec fn strip_cr(l: Seq<u8>) -> Seq<u8> {
    if l.len() > 0 && l.last() == 13 {
        l.drop_last()
    } else {
        l
    }
}

/// The lines of `s` when `acc` holds the bytes of the current, unfinished line.
pub open spec fn lines_from(s: Seq<u8>, acc: Seq<u8>) -> Seq<Seq<u8>>
    decreases s.len(),
{
    if s.len() == 0 {
        if acc.len() == 0 {
            Seq::empty()
        } else {
            seq![strip_cr(acc)]
        }
    } else if s[0] == 10 {
        seq![strip_cr(acc)] + lines_from(s.skip(1), Seq::empty())
    } else {
        lines_from(s.skip(1), acc.push(s[0]))
    }
}

/// The lines of `s`, split on line feeds, with no empty line after a trailing
/// line feed, matching `str::lines`.
pub open spec fn spec_lines(s: Seq<u8>) -> Seq<Seq<u8>> {
    lines_from(s, Seq::empty())
}


/// Appending after a push is appending a one-element sequence.
proof fn lemma_push_assoc<A>(prev: Seq<A>, x: A, rest: Seq<A>)
    ensures
        prev.push(x) + rest =~= prev + (seq![x] + rest),
{
}

fn take_line(acc: Vec<u8>) -> (r: Vec<u8>)
    ensures
        r@ == strip_cr(acc@),
{
    let mut acc = acc;
    if acc.len() > 0 && acc[acc.len() - 1] == 13 {
        acc.pop();
    }
    acc
}

/// Splits `input` into its lines as byte vectors.
pub fn lines_of(input: &str) -> (r: Vec<Vec<u8>>)
    ensures
        r@.map_values(|l: Vec<u8>| l@) =~= spec_lines(input.spec_bytes()),
{
    let bytes: &[u8] = input.as_bytes();
    let n: usize = bytes.len();
    let mut out: Vec<Vec<u8>> = Vec::new();
    let mut acc: Vec<u8> = Vec::new();
    let mut i: usize = 0;
    proof {
        assert(bytes@.skip(0) =~= bytes@);
    }
    while i < n
        invariant
            n == bytes@.len(),
            i <= n,
            spec_lines(bytes@) =~= out@.map_values(|l: Vec<u8>| l@) + lines_from(
                bytes@.skip(i as int),
                acc@,
            ),
        decreases n - i,
    {
        proof {
            assert(bytes@.skip(i as int)[0] == bytes@[i as int]);
            assert(bytes@.skip(i as int).skip(1) =~= bytes@.skip(i as int + 1));
        }
        let b = bytes[i];
        if b == 10 {
            let ghost prev = out@.map_values(|l: Vec<u8>| l@);
            let line = take_line(acc);
            out.push(line);
            acc = Vec::new();
            proof {
                assert(out@.map_values(|l: Vec<u8>| l@) =~= prev.push(line@));
                lemma_push_assoc(prev, line@, lines_from(bytes@.skip(i as int + 1), acc@));
            }
        } else {
            acc.push(b);
        }
        i = i + 1;
    }
    if acc.len() > 0 {
        let ghost prev = out@.map_values(|l: Vec<u8>| l@);
        let line = take_line(acc);
        out.push(line);
        proof {
            assert(out@.map_values(|l: Vec<u8>| l@) =~= prev.push(line@));
        }
    }
    out
}

/// The fields of `s` split on `sep`, when `acc` holds the current field.
pub open spec fn fields_from(s: Seq<u8>, sep: u8, acc: Seq<u8>) -> Seq<Seq<u8>>
    decreases s.len(),
{
    if s.len() == 0 {
        seq![acc]
    } else if s[0] == sep {
        seq![acc] + fields_from(s.skip(1), sep, Seq::empty())
    } else {
        fields_from(s.skip(1), sep, acc.push(s[0]))
    }
}

/// The fields of `s` split on `sep`, matching `str::split` on a one-byte
/// pattern: separators at the ends yield empty fields.
pub open spec fn spec_split(s: Seq<u8>, sep: u8) -> Seq<Seq<u8>> {
    fields_from(s, sep, Seq::empty())
}

/// Splits `bytes` into fields on the byte `sep`.
pub fn split_on(bytes: &[u8], sep: u8) -> (r: Vec<Vec<u8>>)
    ensures
        r@.map_values(|l: Vec<u8>| l@) =~= spec_split(bytes@, sep),
{
    let n: usize = bytes.len();
    let mut out: Vec<Vec<u8>> = Vec::new();
    let mut acc: Vec<u8> = Vec::new();
    let mut i: usize = 0;
    proof {
        assert(bytes@.skip(0) =~= bytes@);
    }
    while i < n
        invariant
            n == bytes@.len(),
            i <= n,
            spec_split(bytes@, sep) =~= out@.map_values(|l: Vec<u8>| l@) + fields_from(
                bytes@.skip(i as int),
                sep,
                acc@,
            ),
        decreases n - i,
    {
        proof {
            assert(bytes@.skip(i as int)[0] == bytes@[i as int]);
            assert(bytes@.skip(i as int).skip(1) =~= bytes@.skip(i as int + 1));
        }
        let b = bytes[i];
        if b == sep {
            let ghost prev = out@.map_values(|l: Vec<u8>| l@);
            out.push(acc);
            acc = Vec::new();
            proof {
                assert(out@.map_values(|l: Vec<u8>| l@) =~= prev.push(out@.last()@));
                lemma_push_assoc(prev, out@.last()@, fields_from(bytes@.skip(i as int + 1), sep, acc@));
            }
        } else {
            acc.push(b);
        }
        i = i + 1;
    }
    let ghost prev = out@.map_values(|l: Vec<u8>| l@);
    out.push(acc);
    proof {
        assert(out@.map_values(|l: Vec<u8>| l@) =~= prev.push(out@.last()@));
    }
    out
}

/// Whether `b` is ASCII whitespace: space, tab, carriage return or line
/// feed.
pub open spec fn is_space(b: u8) -> bool {
    b == 32 || b == 9 || b == 13 || b == 10
}

/// The whitespace-separated words of `s`, when `acc` holds the current word.
pub open spec fn words_from(s: Seq<u8>, acc: Seq<u8>) -> Seq<Seq<u8>>
    decreases s.len(),
{
    if s.len() == 0 {
        if acc.len() == 0 {
            Seq::empty()
        } else {
            seq![acc]
        }
    } else if is_space(s[0]) {
        if acc.len() == 0 {
            words_from(s.skip(1), Seq::empty())
        } else {
            seq![acc] + words_from(s.skip(1), Seq::empty())
        }
    } else {
        words_from(s.skip(1), acc.push(s[0]))
    }
}

/// The whitespace-separated words of `s`: maximal runs of non-whitespace
/// bytes, matching `str::split_whitespace` on ASCII input.
pub open spec fn spec_words(s: Seq<u8>) -> Seq<Seq<u8>> {
    words_from(s, Seq::empty())
}

/// Splits `bytes` into whitespace-separated words.
pub fn words_of(bytes: &[u8]) -> (r: Vec<Vec<u8>>)
    ensures
        r@.map_values(|l: Vec<u8>| l@) =~= spec_words(bytes@),
{
    let n: usize = bytes.len();
    let mut out: Vec<Vec<u8>> = Vec::new();
    let mut acc: Vec<u8> = Vec::new();
    let mut i: usize = 0;
    proof {
        assert(bytes@.skip(0) =~= bytes@);
    }
    while i < n
        invariant
            n == bytes@.len(),
            i <= n,
            spec_words(bytes@) =~= out@.map_values(|l: Vec<u8>| l@) + words_from(
                bytes@.skip(i as int),
                acc@,
            ),
        decreases n - i,
    {
        proof {
            assert(bytes@.skip(i as int)[0] == bytes@[i as int]);
            assert(bytes@.skip(i as int).skip(1) =~= bytes@.skip(i as int + 1));
        }
        let b = bytes[i];
        if b == 32 || b == 9 || b == 13 || b == 10 {
            proof {
                if acc@.len() == 0 {
                    assert(acc@ =~= Seq::<u8>::empty());
                }
            }
            if acc.len() > 0 {
                let ghost prev = out@.map_values(|l: Vec<u8>| l@);
                out.push(acc);
                acc = Vec::new();
                proof {
                    assert(out@.map_values(|l: Vec<u8>| l@) =~= prev.push(out@.last()@));
                    lemma_push_assoc(prev, out@.last()@, words_from(bytes@.skip(i as int + 1), acc@));
                }
            }
        } else {
            acc.push(b);
        }
        i = i + 1;
    }
    if acc.len() > 0 {
        let ghost prev = out@.map_values(|l: Vec<u8>| l@);
        out.push(acc);
        proof {
            assert(out@.map_values(|l: Vec<u8>| l@) =~= prev.push(out@.last()@));
        }
    }
    out
}


/// What remains of `l` after its first colon; everything, cut at nothing,
/// when there is none.
pub open spec fn after_colon(l: Seq<u8>) -> Seq<u8>
    decreases l.len(),
{
    if l.len() == 0 {
        Seq::empty()
    } else if l[0] == 58 {
        l.skip(1)
    } else {
        after_colon(l.skip(1))
    }
}

/// The bytes of `line` after its first colon.
pub fn data_after_colon(line: &Vec<u8>) -> (r: Vec<u8>)
    ensures
        r@ == after_colon(line@),
{
    let mut i: usize = 0;
    proof {
        assert(line@.skip(0) =~= line@);
    }
    while i < line.len()
        invariant
            i <= line@.len(),
            after_colon(line@) == after_colon(line@.skip(i as int)),
        decreases line@.len() - i,
    {
        proof {
            assert(line@.skip(i as int)[0] == line@[i as int]);
            assert(line@.skip(i as int).skip(1) =~= line@.skip(i as int + 1));
        }
        if line[i] == 58 {
            let mut out: Vec<u8> = Vec::new();
            let mut j: usize = i + 1;
            while j < line.len()
                invariant
                    i < j <= line@.len(),
                    out@ =~= line@.subrange(i as int + 1, j as int),
                decreases line@.len() - j,
            {
                out.push(line[j]);
                j = j + 1;
            }
            proof {
                assert(line@.subrange(i as int + 1, line@.len() as int) =~= line@.skip(
                    i as int,
                ).skip(1));
            }
            return out;
        }
        i = i + 1;
    }
    proof {
        assert(line@.skip(line@.len() as int).len() == 0);
    }
    Vec::new()
}

/// Whether `b` is an ASCII decimal digit.
pub open spec fn is_digit(b: u8) -> bool {
    48 <= b <= 57
}

/// Whether `s` is one or more ASCII decimal digits.
pub open spec fn is_digit_seq(s: Seq<u8>) -> bool {
    s.len() > 0 && forall|i: int| 0 <= i < s.len() ==> is_digit(s[i])
}

/// The number that the digit bytes `s` spell in decimal.
pub open spec fn digits_val(s: Seq<u8>) -> nat
    decreases s.len(),
{
    if s.len() == 0 {
        0
    } else {
        digits_val(s.drop_last()) * 10 + (s.last() - 48) as nat
    }
}

/// A digit prefix never spells more than the whole.
proof fn lemma_digits_val_prefix(s: Seq<u8>, i: int)
    requires
        0 <= i <= s.len(),
    ensures
        digits_val(s.take(i)) <= digits_val(s),
    decreases s.len() - i,
{
    if i < s.len() {
        assert(s.take(i + 1).drop_last() =~= s.take(i));
        assert(digits_val(s.take(i)) <= digits_val(s.take(i + 1)));
        lemma_digits_val_prefix(s, i + 1);
        assert(s.take(s.len() as int) =~= s);
    } else {
        assert(s.take(i) =~= s);
    }
}

/// Reads `bytes` as an unsigned decimal number. Yields `None` exactly when
/// `bytes` is not a plain digit string or the value does not fit in `u64`.
pub fn parse_u64(bytes: &[u8]) -> (r: Option<u64>)
    ensures
        match r {
            Some(v) => is_digit_seq(bytes@) && v == digits_val(bytes@),
            None => !is_digit_seq(bytes@) || digits_val(bytes@) > u64::MAX,
        },
{
    let n: usize = bytes.len();
    if n == 0 {
        return None;
    }
    let mut acc: u64 = 0;
    let mut i: usize = 0;
    proof {
        assert(bytes@.skip(0) =~= bytes@);
    }
    while i < n
        invariant
            n == bytes@.len(),
            i <= n,
            acc == digits_val(bytes@.take(i as int)),
            forall|j: int| 0 <= j < i ==> is_digit(bytes@[j]),
        decreases n - i,
    {
        let b = bytes[i];
        if b < 48 || b > 57 {
            return None;
        }
        let d: u64 = (b - 48) as u64;
        if acc > (u64::MAX - d) / 10 {
            proof {
                assert(bytes@.take(i as int + 1).drop_last() =~= bytes@.take(i as int));
                assert(digits_val(bytes@.take(i as int + 1)) > u64::MAX);
                lemma_digits_val_prefix(bytes@, i as int + 1);
            }
            return None;
        }
        proof {
            assert(bytes@.take(i as int + 1).drop_last() =~= bytes@.take(i as int));
        }
        acc = acc * 10 + d;
        i = i + 1;
    }
    proof {
        assert(bytes@.take(n as int) =~= bytes@);
    }
    Some(acc)
}

/// The signed number that `s` spells: an optional leading minus sign, then
/// decimal digits.
pub open spec fn signed_val(s: Seq<u8>) -> int {
    if s.len() > 0 && s[0] == 45 {
        -(digits_val(s.skip(1)) as int)
    } else {
        digits_val(s) as int
    }
}

/// Whether `s` spells a signed decimal number.
pub open spec fn is_signed_seq(s: Seq<u8>) -> bool {
    if s.len() > 0 && s[0] == 45 {
        is_digit_seq(s.skip(1))
    } else {
        is_digit_seq(s)
    }
}

/// Reads `bytes` as a signed decimal number. Yields `None` exactly when
/// `bytes` does not spell one or the value does not fit in `i64`.
pub fn parse_i64(bytes: &[u8]) -> (r: Option<i64>)
    ensures
        match r {
            Some(v) => is_signed_seq(bytes@) && v == signed_val(bytes@),
            None => !is_signed_seq(bytes@) || signed_val(bytes@) > i64::MAX || signed_val(bytes@)
                < i64::MIN,
        },
{
    if bytes.len() > 0 && bytes[0] == 45 {
        let rest: &[u8] = &bytes[1..bytes.len()];
        proof {
            assert(rest@ =~= bytes@.skip(1));
        }
        match parse_u64(rest) {
            Some(v) => {
                if v <= 9223372036854775808u64 {
                    let r: i64 = if v == 9223372036854775808u64 {
                        i64::MIN
                    } else {
                        -(v as i64)
                    };
                    Some(r)
                } else {
                    None
                }
            },
            None => None,
        }
    } else {
        match parse_u64(bytes) {
            Some(v) => {
                if v <= i64::MAX as u64 {
                    Some(v as i64)
                } else {
                    None
                }
            },
            None => None,
        }
    }
}

} // verus!
