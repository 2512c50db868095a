//! Small computations for drawing a document: the width of the line-number
//! gutter and the byte column of a character column.
use vstd::prelude::*;
use vstd::string::*;
use vstd::utf8::*;

verus! {

/// The number of decimal digits of `n`.
pub open spec fn decimal_digits(n: nat) -> nat
    decreases n,
{
    if n < 10 {
        1
    } else {
        1 + decimal_digits(n / 10)
    }
}

/// `10` to the power `k`.
pub open spec fn pow10(k: nat) -> nat
    decreases k,
{
    if k == 0 {
        1
    } else {
        10 * pow10((k - 1) as nat)
    }
}

/// A number below `10^k` has at most `k` digits.
pub proof fn lemma_digits_below(n: nat, k: nat)
    requires
        k >= 1,
        n < pow10(k),
    ensures
        decimal_digits(n) <= k,
    decreases k,
{
    if n >= 10 {
        if k == 1 {
            assert(pow10(1) == 10) by {
                reveal_with_fuel(pow10, 2);
            }
        } else {
            lemma_digits_below(n / 10, (k - 1) as nat);
        }
    }
}

/// A `usize` has at most 20 decimal digits.
pub proof fn lemma_digits_at_most_20(n: nat)
    requires
        n <= usize::MAX,
    ensures
        decimal_digits(n) <= 20,
{
    assert(pow10(20) == 100_000_000_000_000_000_000) by {
        reveal_with_fuel(pow10, 21);
    }
    lemma_digits_below(n, 20);
}

/// Width of the line-number gutter: the digits of the largest line number
/// (at least one).
pub fn gutter_width(line_count: usize) -> (r: usize)
    ensures
        r == decimal_digits(if line_count >= 1 {
            line_count as nat
        } else {
            1
        }),
{
    let n0: usize = if line_count >= 1 {
        line_count
    } else {
        1
    };
    let mut n = n0;
    let mut d: usize = 1;
    proof {
        lemma_digits_bound(n0 as nat);
    }
    while n >= 10
        invariant
            1 <= d,
            n >= 1,
            decimal_digits(n0 as nat) == d - 1 + decimal_digits(n as nat),
            decimal_digits(n0 as nat) <= n0,
        decreases n,
    {
        proof {
            lemma_digits_bound((n / 10) as nat);
        }
        n = n / 10;
        d = d + 1;
    }
    d
}

proof fn lemma_digits_bound(n: nat)
    ensures
        n >= 1 ==> decimal_digits(n) <= n,
        decimal_digits(n) >= 1,
    decreases n,
{
    if n >= 10 {
        lemma_digits_bound(n / 10);
    }
}

/// Convert a character-column index to a byte offset within `line`: the
/// bytes of the first `char_col` characters, or the whole line when it is
/// shorter.
pub fn char_to_byte_col(line: &str, char_col: usize) -> (r: usize)
    ensures
        r == if char_col < line@.len() {
            encode_utf8(line@.subrange(0, char_col as int)).len()
        } else {
            line.spec_bytes().len()
        },
{
    if char_col < line.unicode_len() {
        line.substring_char(0, char_col).as_bytes().len()
    } else {
        line.as_bytes().len()
    }
}

} // verus!
