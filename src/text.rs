//! The text line that shows one score entry: `"{score} - {name}"`.

use vstd::prelude::*;
use vstd::string::StringExecFns;

verus! {

/// The decimal digit character for `d` (below ten).
pub open spec fn digit_char(d: nat) -> char {
    if d == 0 { '0' }
    else if d == 1 { '1' }
    else if d == 2 { '2' }
    else if d == 3 { '3' }
    else if d == 4 { '4' }
    else if d == 5 { '5' }
    else if d == 6 { '6' }
    else if d == 7 { '7' }
    else if d == 8 { '8' }
    else { '9' }
}

/// The decimal digits of `n`, most significant first, without leading zeros.
pub open spec fn digits(n: nat) -> Seq<char>
    decreases n,
{
    if n < 10 {
        seq![digit_char(n)]
    } else {
        digits(n / 10).push(digit_char(n % 10))
    }
}

/// `n` written in decimal, with a leading `-` when negative.
pub open spec fn decimal(n: int) -> Seq<char> {
    if n < 0 {
        seq!['-'] + digits((-n) as nat)
    } else {
        digits(n as nat)
    }
}

/// The text that shows a score and a name.
pub open spec fn line_text(score: int, name: Seq<char>) -> Seq<char> {
    decimal(score) + seq![' ', '-', ' '] + name
}

/// Relies on `i32`'s `to_string` (its `Display`), which writes the number in
/// decimal with a leading `-` when negative.
#[verifier::external_body]
fn decimal_text(n: i32) -> (r: String)
    ensures
        r@ == decimal(n as int),
{
    n.to_string()
}

/// The line that shows `score` and `name`: `"{score} - {name}"`.
pub(crate) fn format_line(score: i32, name: &String) -> (r: String)
    ensures
        r@ == line_text(score as int, name@),
{
    let mut r = decimal_text(score);
    proof {
        reveal_strlit(" - ");
    }
    r.append(" - ");
    r.append(name.as_str());
    r
}

} // verus!
