//! Line-number gutter: digit counts and the gutter's width.

use vstd::prelude::*;

verus! {

/// Number of decimal digits of `n`; zero has one digit.
pub open spec fn digit_count(n: nat) -> nat
    decreases n,
{
    if n < 10 {
        1
    } else {
        1 + digit_count(n / 10)
    }
}

/// A number has at most twenty digits when it fits in 64 bits.
pub proof fn lemma_digit_count_bound(n: nat)
    requires
        n <= u64::MAX,
    ensures
        1 <= digit_count(n) <= 20,
{
    reveal_with_fuel(digit_count, 21);
}

/// Counts the decimal digits of `n`.
pub fn count_digits(n: usize) -> (d: usize)
    ensures
        d == digit_count(n as nat),
        1 <= d <= 20,
{
    let mut rest: usize = n;
    let mut d: usize = 1;
    proof {
        lemma_digit_count_bound(n as nat);
    }
    while rest >= 10
        invariant
            d + digit_count(rest as nat) == 1 + digit_count(n as nat),
            1 <= d,
            digit_count(n as nat) <= 20,
        decreases rest,
    {
        rest = rest / 10;
        d = d + 1;
    }
    d
}

/// Number of decimal digits of a line number.
pub fn dumb_log(num: u16) -> (digits: u16)
    ensures
        digits == digit_count(num as nat),
        1 <= digits <= 5,
{
    proof {
        reveal_with_fuel(digit_count, 6);
    }
    if num <= 9 {
        1
    } else if num <= 99 {
        2
    } else if num <= 999 {
        3
    } else if num <= 9999 {
        4
    } else {
        5
    }
}

/// Width of the gutter: the digits of the largest line number shown, and one
/// cell that separates the numbers from the text.
pub open spec fn gutter_width_spec(last_line_number: nat) -> nat {
    digit_count(last_line_number) + 1
}

/// Computes the gutter width from the largest line number shown.
pub fn gutter_width(last_line_number: usize) -> (w: usize)
    ensures
        w == gutter_width_spec(last_line_number as nat),
        2 <= w <= 21,
{
    count_digits(last_line_number) + 1
}

/// Column at which the numeral of `line_number` starts, so that all numerals
/// of a frame end in the same column.
pub open spec fn label_col_spec(width: nat, line_number: nat) -> int {
    if digit_count(line_number) + 1 <= width {
        width - 1 - digit_count(line_number)
    } else {
        0
    }
}

/// Computes where a right-aligned numeral starts inside a gutter of `width`.
pub fn label_col(width: usize, line_number: usize) -> (col: usize)
    ensures
        col == label_col_spec(width as nat, line_number as nat),
{
    let d = count_digits(line_number);
    if d + 1 <= width {
        width - 1 - d
    } else {
        0
    }
}

/// Digit counts never shrink as numbers grow.
pub proof fn lemma_digit_count_monotonic(a: nat, b: nat)
    requires
        a <= b,
    ensures
        digit_count(a) <= digit_count(b),
    decreases b,
{
    if b >= 10 {
        if a >= 10 {
            lemma_digit_count_monotonic(a / 10, b / 10);
        }
    }
}

} // verus!
