//! Numbers written for people to read.
use vstd::prelude::*;

verus! {

/// The character of a digit.
pub open spec fn digit_of(d: nat) -> char {
    ((48 + d) as u8) as char
}

/// The decimal digits of a number, the highest first.
pub open spec fn decimal_digits(n: nat) -> Seq<char>
    decreases n,
{
    if n < 10 {
        seq![digit_of(n)]
    } else {
        decimal_digits(n / 10).push(digit_of(n % 10))
    }
}

/// The digits with a comma before every group of three counted from the right.
pub open spec fn grouped(digits: Seq<char>) -> Seq<char>
    decreases digits.len(),
{
    if digits.len() <= 3 {
        digits
    } else {
        grouped(digits.take(digits.len() - 3)).push(',') + digits.skip(digits.len() - 3)
    }
}

/// The decimal digits of a number, the highest first.
pub fn decimal(x: usize) -> (digits: Vec<char>)
    ensures
        digits@ == decimal_digits(x as nat),
        digits.len() >= 1,
    decreases x,
{
    if x < 10 {
        let mut digits: Vec<char> = Vec::new();
        digits.push((48u8 + x as u8) as char);
        assert(digits@ =~= seq![digit_of(x as nat)]);
        digits
    } else {
        let mut digits = decimal(x / 10);
        digits.push((48u8 + (x % 10) as u8) as char);
        digits
    }
}

/// The first `n` of the digits, with a comma before every group of three
/// counted from the right.
fn group(digits: &Vec<char>, n: usize) -> (text: Vec<char>)
    requires
        n <= digits.len(),
    ensures
        text@ == grouped(digits@.take(n as int)),
    decreases n,
{
    let ghost first = digits@.take(n as int);
    let mut text: Vec<char>;
    let mut i: usize;
    if n <= 3 {
        text = Vec::new();
        i = 0;
    } else {
        text = group(digits, n - 3);
        text.push(',');
        i = n - 3;
        assert(first.take(first.len() - 3) =~= digits@.take(n - 3));
    }
    let ghost head = text@;
    let start = i;
    while i < n
        invariant
            start <= i <= n <= digits.len(),
            text@ == head + digits@.subrange(start as int, i as int),
        decreases n - i,
    {
        text.push(digits[i]);
        assert(text@ =~= head + digits@.subrange(start as int, i + 1));
        i += 1;
    }
    proof {
        if n <= 3 {
            assert(text@ =~= first);
        } else {
            assert(digits@.subrange(start as int, n as int) =~= first.skip(first.len() - 3));
        }
    }
    text
}

/// The number in decimal digits with a comma between the thousands.
pub fn thousands_separate(x: usize) -> (text: Vec<char>)
    ensures
        text@ == grouped(decimal_digits(x as nat)),
{
    let digits = decimal(x);
    assert(digits@.take(digits.len() as int) =~= digits@);
    group(&digits, digits.len())
}

} // verus!
