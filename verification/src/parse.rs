//! Parsing of the numeric tail of a thickness code.
//!
//! The tail of a code is read as an unsigned base-10 literal: digits with
//! at most one decimal point and at least one digit, such as `15`, `15.5`
//! or `.5`. Its value is the exact rational `dec_num / dec_den`, where
//! `dec_num` is the number formed by the digits with the point removed and
//! `dec_den` is ten to the number of fraction digits.

use vstd::prelude::*;

verus! {

/// The character is an ASCII decimal digit.
pub open spec fn is_digit(c: char) -> bool {
    48 <= c as u32 <= 57
}

/// The character is an ASCII decimal point.
pub open spec fn is_dot(c: char) -> bool {
    c as u32 == 46
}

/// Numeric value of a digit character.
pub open spec fn digit_val(c: char) -> int {
    c as u32 - 48
}

/// Every character of the sequence is a digit.
pub open spec fn all_digits(s: Seq<char>) -> bool {
    forall|i: int| 0 <= i < s.len() ==> is_digit(#[trigger] s[i])
}

/// The number the digit sequence denotes in base 10; 0 for the empty
/// sequence.
pub open spec fn digits_val(s: Seq<char>) -> int
    decreases s.len(),
{
    if s.len() == 0 {
        0
    } else {
        digits_val(s.drop_last()) * 10 + digit_val(s.last())
    }
}

/// Ten to the power `n`.
pub open spec fn pow10(n: nat) -> int
    decreases n,
{
    if n == 0 {
        1
    } else {
        10 * pow10((n - 1) as nat)
    }
}

/// Position `j` splits the sequence into integer digits, one decimal
/// point, and fraction digits.
pub open spec fn dot_split_at(s: Seq<char>, j: int) -> bool {
    &&& 0 <= j < s.len()
    &&& s.len() >= 2
    &&& is_dot(s[j])
    &&& all_digits(s.take(j))
    &&& all_digits(s.skip(j + 1))
}

/// The sequence is a digit string with exactly one decimal point.
pub open spec fn has_dot_split(s: Seq<char>) -> bool {
    exists|j: int| dot_split_at(s, j)
}

/// The position of the decimal point of a sequence that has one.
pub open spec fn dot_index(s: Seq<char>) -> int {
    choose|j: int| dot_split_at(s, j)
}

/// The sequence is a valid unsigned decimal literal: at least one digit,
/// and at most one decimal point.
pub open spec fn valid_decimal(s: Seq<char>) -> bool {
    (s.len() >= 1 && all_digits(s)) || has_dot_split(s)
}

/// Numerator of the literal: the number formed by its digits, the
/// decimal point removed.
pub open spec fn dec_num(s: Seq<char>) -> int {
    if has_dot_split(s) {
        digits_val(s.take(dot_index(s)) + s.skip(dot_index(s) + 1))
    } else {
        digits_val(s)
    }
}

/// Denominator of the literal: ten to the number of fraction digits.
pub open spec fn dec_den(s: Seq<char>) -> int {
    if has_dot_split(s) {
        pow10((s.len() - dot_index(s) - 1) as nat)
    } else {
        1
    }
}

/// A sequence has at most one splitting decimal point.
proof fn lemma_dot_unique(s: Seq<char>, j1: int, j2: int)
    requires
        dot_split_at(s, j1),
        dot_split_at(s, j2),
    ensures
        j1 == j2,
{
    if j1 < j2 {
        assert(s.skip(j1 + 1)[j2 - j1 - 1] == s[j2]);
        assert(is_digit(s[j2]));
    }
    if j2 < j1 {
        assert(s.skip(j2 + 1)[j1 - j2 - 1] == s[j1]);
        assert(is_digit(s[j1]));
    }
}

/// The digits of a sequence bound its value: `0 <= digits_val(s) < 10^len`.
proof fn lemma_digits_val_bound(s: Seq<char>)
    requires
        all_digits(s),
    ensures
        0 <= digits_val(s) < pow10(s.len()),
    decreases s.len(),
{
    if s.len() > 0 {
        assert(all_digits(s.drop_last()));
        lemma_digits_val_bound(s.drop_last());
    }
}

/// The first seven powers of ten, for concrete bounds.
proof fn lemma_pow10_small()
    ensures
        pow10(0) == 1,
        pow10(1) == 10,
        pow10(2) == 100,
        pow10(3) == 1000,
        pow10(4) == 10000,
        pow10(5) == 100000,
        pow10(6) == 1000000,
{
    assert(pow10(0) == 1);
    assert(pow10(1) == 10);
    assert(pow10(2) == 100);
    assert(pow10(3) == 1000);
    assert(pow10(4) == 10000);
    assert(pow10(5) == 100000);
    assert(pow10(6) == 1000000);
}

/// Parses the characters of `s` from position `from` on as an unsigned
/// decimal literal and returns its exact numerator and denominator.
///
/// Relies only on character access; fails exactly when the tail is not a
/// valid decimal literal.
pub(crate) fn parse_decimal(s: &str, from: usize) -> (res: Result<(i128, i128), ()>)
    requires
        from <= s@.len(),
        s@.len() <= from + 6,
    ensures
        res is Ok <==> valid_decimal(s@.skip(from as int)),
        res is Ok ==> res->Ok_0.0 == dec_num(s@.skip(from as int)) && res->Ok_0.1 == dec_den(
            s@.skip(from as int),
        ) && 0 <= res->Ok_0.0 < 1_000_000 && 1 <= res->Ok_0.1 <= 100_000,
{
    let ghost tail = s@.skip(from as int);
    let len: usize = s.unicode_len();
    let mut pt: i128 = 0;
    let mut qt: i128 = 1;
    let mut seen_dot: bool = false;
    let mut has_digit: bool = false;
    let ghost mut dpos: int = 0;
    let mut i: usize = from;
    while i < len
        invariant
            from <= i <= len,
            len == s@.len(),
            len <= from + 6,
            tail == s@.skip(from as int),
            !seen_dot ==> {
                &&& all_digits(s@.subrange(from as int, i as int))
                &&& pt == digits_val(s@.subrange(from as int, i as int))
                &&& qt == 1
                &&& has_digit == (i > from)
            },
            seen_dot ==> {
                &&& from <= dpos < i
                &&& is_dot(s@[dpos])
                &&& all_digits(s@.subrange(from as int, dpos))
                &&& all_digits(s@.subrange(dpos + 1, i as int))
                &&& pt == digits_val(
                    s@.subrange(from as int, dpos) + s@.subrange(dpos + 1, i as int),
                )
                &&& qt == pow10((i - dpos - 1) as nat)
                &&& has_digit == (i - from >= 2)
            },
            0 <= pt < 1_000_000,
            1 <= qt <= 100_000,
        decreases len - i,
    {
        let c: char = s.get_char(i);
        let u: u32 = c as u32;
        proof {
            lemma_pow10_small();
        }
        if 48 <= u && u <= 57 {
            proof {
                if !seen_dot {
                    let pre = s@.subrange(from as int, i as int);
                    assert(s@.subrange(from as int, i + 1) =~= pre.push(c));
                    assert(pre.push(c).drop_last() =~= pre);
                    lemma_digits_val_bound(pre.push(c));
                    assert(pre.push(c).len() <= 6);
                    lemma_pow10_le(pre.push(c).len(), 6);
                } else {
                    let ints = s@.subrange(from as int, dpos);
                    let pre = s@.subrange(dpos + 1, i as int);
                    assert(s@.subrange(dpos + 1, i + 1) =~= pre.push(c));
                    assert(ints + pre.push(c) =~= (ints + pre).push(c));
                    assert((ints + pre).push(c).drop_last() =~= ints + pre);
                    assert(all_digits(ints + pre.push(c)));
                    lemma_digits_val_bound(ints + pre.push(c));
                    assert((ints + pre.push(c)).len() <= 5);
                    lemma_pow10_le((ints + pre.push(c)).len(), 6);
                    assert((i + 1 - dpos - 1) as nat == ((i - dpos - 1) as nat) + 1);
                    lemma_pow10_le((i + 1 - dpos - 1) as nat, 5);
                }
            }
            pt = pt * 10 + (u - 48) as i128;
            if seen_dot {
                qt = qt * 10;
            }
            has_digit = true;
        } else if u == 46 && !seen_dot {
            seen_dot = true;
            proof {
                dpos = i as int;
                assert(s@.subrange(dpos + 1, i + 1) =~= Seq::<char>::empty());
                assert(s@.subrange(from as int, dpos) + s@.subrange(dpos + 1, i + 1) =~= s@
                    .subrange(from as int, i as int));
            }
        } else {
            proof {
                lemma_reject_invalid(s@, from as int, i as int, seen_dot, dpos);
            }
            return Err(());
        }
        i = i + 1;
    }
    if !has_digit {
        proof {
            assert(tail.len() == len - from);
            if valid_decimal(tail) {
                if tail.len() >= 1 && all_digits(tail) {
                    if seen_dot {
                        assert(tail[dpos - from] == s@[dpos]);
                        assert(is_digit(s@[dpos]));
                    } else {
                        assert(len == from);
                    }
                } else {
                    let j = choose|j: int| dot_split_at(tail, j);
                    assert(dot_split_at(tail, j));
                    assert(tail.len() >= 2);
                    if seen_dot {
                        assert(len - from == 1);
                    } else {
                        assert(len == from);
                    }
                }
            }
        }
        return Err(());
    }
    proof {
        if !seen_dot {
            assert(tail =~= s@.subrange(from as int, len as int));
            if has_dot_split(tail) {
                let j = choose|j: int| dot_split_at(tail, j);
                assert(dot_split_at(tail, j));
                assert(is_digit(tail[j]));
            }
        } else {
            let jrel = dpos - from;
            assert(tail[jrel] == s@[dpos]);
            assert(tail.take(jrel) =~= s@.subrange(from as int, dpos));
            assert(tail.skip(jrel + 1) =~= s@.subrange(dpos + 1, len as int));
            assert(tail.len() >= 2);
            assert(dot_split_at(tail, jrel));
            let j = dot_index(tail);
            assert(dot_split_at(tail, j));
            lemma_dot_unique(tail, j, jrel);
        }
    }
    Ok((pt, qt))
}

/// Powers of ten are monotone in the exponent.
proof fn lemma_pow10_le(a: nat, b: nat)
    requires
        a <= b,
    ensures
        pow10(a) <= pow10(b),
        1 <= pow10(a),
    decreases b,
{
    if b > 0 {
        if a == b {
            lemma_pow10_le((a - 1) as nat, (b - 1) as nat);
        } else {
            lemma_pow10_le(a, (b - 1) as nat);
        }
    }
}

/// A character that is neither a digit nor a first decimal point rules
/// out every reading of the tail as a decimal literal.
proof fn lemma_reject_invalid(s: Seq<char>, from: int, i: int, seen_dot: bool, dpos: int)
    requires
        0 <= from <= i < s.len(),
        !is_digit(s[i]),
        !seen_dot ==> !is_dot(s[i]),
        seen_dot ==> from <= dpos < i && is_dot(s[dpos]),
    ensures
        !valid_decimal(s.skip(from)),
{
    let tail = s.skip(from);
    let r = i - from;
    assert(tail[r] == s[i]);
    if valid_decimal(tail) {
        if tail.len() >= 1 && all_digits(tail) {
            assert(is_digit(tail[r]));
        } else {
            let j = choose|j: int| dot_split_at(tail, j);
            assert(dot_split_at(tail, j));
            if seen_dot {
                let d = dpos - from;
                assert(tail[d] == s[dpos]);
                if j < d {
                    assert(tail.skip(j + 1)[d - j - 1] == tail[d]);
                    assert(is_digit(tail[d]));
                } else if j > d {
                    assert(tail.take(j)[d] == tail[d]);
                    assert(is_digit(tail[d]));
                } else {
                    assert(j < r);
                    assert(tail.skip(j + 1)[r - j - 1] == tail[r]);
                    assert(is_digit(tail[r]));
                }
            } else {
                if j < r {
                    assert(tail.skip(j + 1)[r - j - 1] == tail[r]);
                    assert(is_digit(tail[r]));
                } else if j > r {
                    assert(tail.take(j)[r] == tail[r]);
                    assert(is_digit(tail[r]));
                } else {
                    assert(is_dot(tail[r]));
                }
            }
        }
    }
}

} // verus!
