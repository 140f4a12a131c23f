//! Decimal text: rendering unsigned integers and reading digit strings.
//!
//! Node names (`n0`, `n17`), timestamps, and the numeric suffix of a node
//! identifier all go through these functions.

use vstd::prelude::*;

verus! {

/// The character for one decimal digit.
pub open spec fn digit_char(d: nat) -> char {
    if d == 0 {
        '0'
    } else if d == 1 {
        '1'
    } else if d == 2 {
        '2'
    } else if d == 3 {
        '3'
    } else if d == 4 {
        '4'
    } else if d == 5 {
        '5'
    } else if d == 6 {
        '6'
    } else if d == 7 {
        '7'
    } else if d == 8 {
        '8'
    } else {
        '9'
    }
}

/// The decimal rendering of `n`, most significant digit first, with no
/// leading zeroes (`0` renders as "0").
pub open spec fn spec_decimal(n: nat) -> Seq<char>
    decreases n,
{
    if n < 10 {
        seq![digit_char(n)]
    } else {
        spec_decimal(n / 10).push(digit_char(n % 10))
    }
}

/// Whether `c` is a decimal digit.
pub open spec fn is_digit(c: char) -> bool {
    48 <= c as u32 <= 57
}

/// The numeric value of a digit character.
pub open spec fn digit_val(c: char) -> nat {
    (c as u32 - 48) as nat
}

/// Whether every character of `s` is a decimal digit.
pub open spec fn all_digits(s: Seq<char>) -> bool {
    forall|i: int| 0 <= i < s.len() ==> is_digit(#[trigger] s[i])
}

/// The number a digit string denotes, leading zeroes allowed; the empty
/// string denotes 0.
pub open spec fn digits_val(s: Seq<char>) -> nat
    decreases s.len(),
{
    if s.len() == 0 {
        0
    } else {
        digits_val(s.drop_last()) * 10 + digit_val(s.last())
    }
}

/// 10 to the `n`th power.
pub open spec fn pow10(n: nat) -> nat
    decreases n,
{
    if n == 0 {
        1
    } else {
        10 * pow10((n - 1) as nat)
    }
}

/// Splitting a digit string: the left part counts in full powers of ten.
pub proof fn lemma_digits_val_append(p: Seq<char>, q: Seq<char>)
    ensures
        digits_val(p + q) == digits_val(p) * pow10(q.len()) + digits_val(q),
    decreases q.len(),
{
    if q.len() == 0 {
        assert(p + q =~= p);
        assert(pow10(q.len()) == 1);
        assert(digits_val(q) == 0);
        assert(digits_val(p + q) == digits_val(p) * pow10(q.len()) + digits_val(q));
    } else {
        lemma_digits_val_append(p, q.drop_last());
        let dp = digits_val(p);
        let dqd = digits_val(q.drop_last());
        let dl = digit_val(q.last());
        let pw1 = pow10((q.len() - 1) as nat);
        assert((p + q).drop_last() =~= p + q.drop_last());
        assert((p + q).last() == q.last());
        assert(digits_val(p + q) == (dp * pw1 + dqd) * 10 + dl);
        assert((dp * pw1 + dqd) * 10 == dp * (pw1 * 10) + dqd * 10) by (nonlinear_arith);
        assert(pow10(q.len()) == 10 * pw1);
        assert(dp * (pw1 * 10) == dp * pow10(q.len())) by (nonlinear_arith)
            requires
                pow10(q.len()) == 10 * pw1,
        ;
        assert(digits_val(q) == dqd * 10 + dl);
        assert(digits_val(p + q) == dp * pow10(q.len()) + digits_val(q));
    }
}

/// A digit string denotes at least what any of its prefixes denotes.
pub proof fn lemma_digits_val_prefix(s: Seq<char>, i: int)
    requires
        0 <= i <= s.len(),
    ensures
        digits_val(s.subrange(0, i)) <= digits_val(s),
{
    let p = s.subrange(0, i);
    let q = s.subrange(i, s.len() as int);
    assert(s =~= p + q);
    lemma_digits_val_append(p, q);
    assert(pow10(q.len()) >= 1) by {
        lemma_pow10_pos(q.len());
    }
    assert(digits_val(p) * pow10(q.len()) >= digits_val(p) * 1) by (nonlinear_arith)
        requires
            pow10(q.len()) >= 1,
    ;
}

/// Powers of ten are positive.
pub proof fn lemma_pow10_pos(n: nat)
    ensures
        pow10(n) >= 1,
    decreases n,
{
    if n > 0 {
        lemma_pow10_pos((n - 1) as nat);
    }
}

/// A decimal rendering is never empty.
pub proof fn lemma_decimal_len(n: nat)
    ensures
        spec_decimal(n).len() >= 1,
    decreases n,
{
    if n >= 10 {
        lemma_decimal_len(n / 10);
    }
}

/// Distinct numbers render to distinct decimal strings.
pub proof fn lemma_decimal_injective(a: nat, b: nat)
    requires
        spec_decimal(a) == spec_decimal(b),
    ensures
        a == b,
    decreases a + b,
{
    if a < 10 && b < 10 {
        assert(seq![digit_char(a)][0] == digit_char(a));
        assert(seq![digit_char(b)][0] == digit_char(b));
        assert(spec_decimal(a) =~= seq![digit_char(a)]);
        assert(spec_decimal(b) =~= seq![digit_char(b)]);
        assert(spec_decimal(a)[0] == spec_decimal(b)[0]);
        assert(digit_char(a) == digit_char(b));
        assert(a == b);
    } else if a < 10 {
        lemma_decimal_len(b / 10);
        assert(spec_decimal(a).len() == 1);
        assert(spec_decimal(b).len() >= 2);
    } else if b < 10 {
        lemma_decimal_len(a / 10);
        assert(spec_decimal(b).len() == 1);
        assert(spec_decimal(a).len() >= 2);
    } else {
        assert(spec_decimal(a) == spec_decimal(a / 10).push(digit_char(a % 10)));
        assert(spec_decimal(b) == spec_decimal(b / 10).push(digit_char(b % 10)));
        assert(spec_decimal(a).last() == digit_char(a % 10));
        assert(spec_decimal(b).last() == digit_char(b % 10));
        assert(digit_char(a % 10) == digit_char(b % 10));
        assert(a % 10 == b % 10);
        assert(spec_decimal(a).drop_last() == spec_decimal(b).drop_last());
        lemma_decimal_len(a / 10);
        lemma_decimal_len(b / 10);
        assert(spec_decimal(a).drop_last() =~= spec_decimal(a / 10));
        assert(spec_decimal(b).drop_last() =~= spec_decimal(b / 10));
        lemma_decimal_injective(a / 10, b / 10);
    }
}

/// One decimal digit as a string slice.
fn digit_str(d: u64) -> (s: &'static str)
    requires
        d < 10,
    ensures
        s@ =~= seq![digit_char(d as nat)],
{
    proof {
        reveal_strlit("0");
        reveal_strlit("1");
        reveal_strlit("2");
        reveal_strlit("3");
        reveal_strlit("4");
        reveal_strlit("5");
        reveal_strlit("6");
        reveal_strlit("7");
        reveal_strlit("8");
        reveal_strlit("9");
    }
    match d {
        0 => "0",
        1 => "1",
        2 => "2",
        3 => "3",
        4 => "4",
        5 => "5",
        6 => "6",
        7 => "7",
        8 => "8",
        _ => "9",
    }
}

/// The characters of the digit stack `ds`, last digit first.
pub open spec fn rev_digit_chars(ds: Seq<u64>) -> Seq<char> {
    Seq::new(ds.len(), |i: int| digit_char(ds[ds.len() - 1 - i] as nat))
}

/// Renders `n` in decimal.
pub fn u64_to_string(n: u64) -> (s: String)
    ensures
        s@ == spec_decimal(n as nat),
{
    let mut digits: Vec<u64> = Vec::new();
    let mut m: u64 = n;
    digits.push(m % 10);
    m = m / 10;
    while m > 0
        invariant
            forall|i: int| 0 <= i < digits@.len() ==> #[trigger] digits@[i] < 10,
            digits@.len() >= 1,
            m == 0 ==> spec_decimal(n as nat) == rev_digit_chars(digits@),
            m > 0 ==> spec_decimal(n as nat) == spec_decimal(m as nat) + rev_digit_chars(
                digits@,
            ),
        decreases m,
    {
        let ghost old_digits = digits@;
        let ghost old_m = m as nat;
        digits.push(m % 10);
        m = m / 10;
        proof {
            assert(rev_digit_chars(digits@) =~= seq![digit_char((old_m % 10) as nat)]
                + rev_digit_chars(old_digits));
            if m == 0 {
                assert(spec_decimal(old_m) == seq![digit_char(old_m)]);
                assert(old_m % 10 == old_m);
                assert(spec_decimal(n as nat) =~= rev_digit_chars(digits@));
            } else {
                assert(spec_decimal(old_m) == spec_decimal(old_m / 10).push(
                    digit_char(old_m % 10),
                ));
                assert(spec_decimal(old_m) =~= spec_decimal(old_m / 10) + seq![
                    digit_char(old_m % 10),
                ]);
                assert(spec_decimal(n as nat) =~= spec_decimal(m as nat) + rev_digit_chars(
                    digits@,
                ));
            }
        }
    }
    let mut s = String::new();
    let mut i: usize = digits.len();
    while i > 0
        invariant
            i <= digits@.len(),
            forall|k: int| 0 <= k < digits@.len() ==> #[trigger] digits@[k] < 10,
            s@ =~= rev_digit_chars(digits@).take(digits@.len() - i),
            spec_decimal(n as nat) == rev_digit_chars(digits@),
        decreases i,
    {
        i = i - 1;
        let d = digits[i];
        s.append(digit_str(d));
        proof {
            assert(s@ =~= rev_digit_chars(digits@).take(digits@.len() - i));
        }
    }
    proof {
        assert(s@ =~= rev_digit_chars(digits@));
    }
    s
}

/// Reads the digit string `s[from..]` as a number. Returns `None` when the
/// range is empty, holds a non-digit, or denotes more than `u64::MAX`.
pub fn parse_digits_from(s: &str, from: usize) -> (r: Option<u64>)
    requires
        from <= s@.len(),
    ensures
        r == spec_parse_digits(s@.subrange(from as int, s@.len() as int)),
{
    let ghost suffix = s@.subrange(from as int, s@.len() as int);
    let len = s.unicode_len();
    if from >= len {
        return None;
    }
    let mut acc: u64 = 0;
    let mut i: usize = from;
    while i < len
        invariant
            from <= i <= len,
            from < len,
            len == s@.len(),
            suffix == s@.subrange(from as int, s@.len() as int),
            all_digits(s@.subrange(from as int, i as int)),
            acc == digits_val(s@.subrange(from as int, i as int)),
        decreases len - i,
    {
        let ghost prefix = s@.subrange(from as int, i as int);
        let c = s.get_char(i);
        let cu = c as u32;
        if cu < 48 || cu > 57 {
            assert(!is_digit(s@[i as int]));
            assert(!all_digits(suffix)) by {
                assert(suffix[i - from] == s@[i as int]);
            }
            return None;
        }
        let d = (cu - 48) as u64;
        assert(is_digit(s@[i as int]) && d == digit_val(s@[i as int]));
        let ghost prefix1 = s@.subrange(from as int, i + 1);
        proof {
            assert(prefix1.drop_last() =~= prefix);
            assert(prefix1.last() == s@[i as int]);
            assert(digits_val(prefix1) == acc * 10 + d);
        }
        if acc > u64::MAX / 10 {
            proof {
                assert(acc * 10 > u64::MAX) by (nonlinear_arith)
                    requires
                        acc > u64::MAX / 10,
                ;
                assert(prefix1 =~= suffix.subrange(0, i + 1 - from));
                lemma_digits_val_prefix(suffix, i + 1 - from);
            }
            return None;
        }
        let t = acc * 10;
        if d > u64::MAX - t {
            proof {
                assert(prefix1 =~= suffix.subrange(0, i + 1 - from));
                lemma_digits_val_prefix(suffix, i + 1 - from);
            }
            return None;
        }
        acc = t + d;
        i = i + 1;
    }
    proof {
        assert(s@.subrange(from as int, i as int) =~= suffix);
    }
    Some(acc)
}

/// The value of the digit string `s`, when it is non-empty, all digits, and
/// in range.
pub open spec fn spec_parse_digits(s: Seq<char>) -> Option<u64> {
    if s.len() > 0 && all_digits(s) && digits_val(s) <= u64::MAX {
        Some(digits_val(s) as u64)
    } else {
        None
    }
}

} // verus!
