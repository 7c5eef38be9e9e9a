use vstd::prelude::*;

verus! {

/// The digit for `n` (below ten).
pub open spec fn digit(n: int) -> char {
    if n == 0 { '0' } else if n == 1 { '1' } else if n == 2 { '2' } else if n == 3 { '3' } else if n == 4 { '4' }
    else if n == 5 { '5' } else if n == 6 { '6' } else if n == 7 { '7' } else if n == 8 { '8' } else { '9' }
}

pub(crate) fn digit_char(n: usize) -> (r: char)
    requires
        n < 10,
    ensures
        r == digit(n as int),
{
    match n {
        0 => '0',
        1 => '1',
        2 => '2',
        3 => '3',
        4 => '4',
        5 => '5',
        6 => '6',
        7 => '7',
        8 => '8',
        _ => '9',
    }
}

/// The text made of the characters `chars`, with `Iterator::collect` into a `String`.
#[verifier::external_body]
pub(crate) fn string_from_chars(chars: &Vec<char>) -> (s: String)
    ensures
        s@ == chars@,
{
    chars.iter().collect()
}

/// The decimal digits of `n`, most significant first.
pub open spec fn decimal(n: nat) -> Seq<char>
    decreases n,
{
    if n < 10 {
        seq![digit(n as int)]
    } else {
        decimal(n / 10).push(digit((n % 10) as int))
    }
}

/// Appends the decimal digits of `n`.
pub(crate) fn push_decimal(out: &mut Vec<char>, n: u128)
    ensures
        final(out)@ == old(out)@ + decimal(n as nat),
    decreases n,
{
    if n >= 10 {
        push_decimal(out, n / 10);
    }
    out.push(digit_char((n % 10) as usize));
    assert(decimal(n as nat) == if n < 10 { seq![digit(n as int)] } else { decimal((n / 10) as nat).push(digit((n % 10) as int)) });
}

/// `n` written in decimal.
pub fn decimal_text(n: u128) -> (r: String)
    ensures
        r@ == decimal(n as nat),
{
    let mut chars: Vec<char> = Vec::new();
    push_decimal(&mut chars, n);
    assert(chars@ =~= decimal(n as nat));
    string_from_chars(&chars)
}

/// A count of half points written with one decimal place.
pub open spec fn half_points(h: nat) -> Seq<char> {
    decimal(h / 2) + seq!['.', if h % 2 == 1 { '5' } else { '0' }]
}

/// A count of half points written with one decimal place, as `{:.1}` writes it.
pub fn half_points_text(h: u128) -> (r: String)
    ensures
        r@ == half_points(h as nat),
{
    let mut chars: Vec<char> = Vec::new();
    push_decimal(&mut chars, h / 2);
    chars.push('.');
    if h % 2 == 1 {
        chars.push('5');
    } else {
        chars.push('0');
    }
    assert(chars@ =~= half_points(h as nat));
    string_from_chars(&chars)
}

} // verus!
