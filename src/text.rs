//! Building text: decimal numbers, appending to strings, joining.
use vstd::prelude::*;
use vstd::string::*;

verus! {

/// The decimal digit for `d`.
pub open spec fn digit(d: nat) -> char {
    if d == 0 { '0' } else if d == 1 { '1' } else if d == 2 { '2' } else if d == 3 { '3' }
    else if d == 4 { '4' } else if d == 5 { '5' } else if d == 6 { '6' } else if d == 7 { '7' }
    else if d == 8 { '8' } else { '9' }
}

/// The decimal digits of `n`, without leading zeros.
pub open spec fn decimal(n: nat) -> Seq<char>
    decreases n,
{
    if n < 10 {
        seq![digit(n)]
    } else {
        decimal(n / 10).push(digit(n % 10))
    }
}

/// Relies on `String::push`: appends one character.
#[verifier::external_body]
pub(crate) fn push_char(s: &mut String, c: char)
    ensures
        final(s)@ == old(s)@.push(c),
{
    s.push(c)
}

/// Appends the characters of `t` to `s`.
pub(crate) fn push_str(s: &mut String, t: &str)
    ensures
        final(s)@ == old(s)@ + t@,
{
    s.append(t);
}

fn digit_char(d: u64) -> (c: char)
    requires
        d < 10,
    ensures
        c == digit(d as nat),
{
    if d == 0 { '0' } else if d == 1 { '1' } else if d == 2 { '2' } else if d == 3 { '3' }
    else if d == 4 { '4' } else if d == 5 { '5' } else if d == 6 { '6' } else if d == 7 { '7' }
    else if d == 8 { '8' } else { '9' }
}

/// Appends the decimal digits of `n` to `s`.
pub fn push_decimal(s: &mut String, n: u64)
    ensures
        final(s)@ == old(s)@ + decimal(n as nat),
{
    let ghost s0 = s@;
    let mut digits: Vec<char> = Vec::new();
    digits.push(digit_char(n % 10));
    let mut m: u64 = n / 10;
    assert(n >= 10 ==> decimal(n as nat) == decimal(m as nat) + digits@);
    assert(n < 10 ==> decimal(n as nat) =~= digits@);
    while m > 0
        invariant
            s@ == s0,
            m > 0 ==> decimal(n as nat) == decimal(m as nat) + digits@,
            m == 0 ==> decimal(n as nat) == digits@,
        decreases m,
    {
        let d = digit_char(m % 10);
        let ghost before = digits@;
        digits.insert(0, d);
        assert(digits@ =~= seq![d] + before);
        if m >= 10 {
            assert(decimal(m as nat) == decimal((m / 10) as nat).push(d));
            assert(decimal((m / 10) as nat).push(d) + before =~= decimal((m / 10) as nat) + digits@);
        } else {
            assert(decimal(m as nat) == seq![d]);
        }
        m = m / 10;
    }
    let mut i: usize = 0;
    while i < digits.len()
        invariant
            i <= digits@.len(),
            s@ == s0 + digits@.take(i as int),
        decreases digits@.len() - i,
    {
        push_char(s, digits[i]);
        assert(digits@.take(i + 1) =~= digits@.take(i as int).push(digits@[i as int]));
        i = i + 1;
    }
    assert(digits@.take(digits@.len() as int) =~= digits@);
}

/// Appends `t` to `s`.
pub(crate) fn push_string(s: &mut String, t: &String)
    ensures
        final(s)@ == old(s)@ + t@,
{
    s.append(t.as_str());
}

/// `xs` one after another, with `sep` between each two.
pub open spec fn joined(xs: Seq<Seq<char>>, sep: Seq<char>) -> Seq<char>
    decreases xs.len(),
{
    if xs.len() == 0 {
        Seq::empty()
    } else if xs.len() == 1 {
        xs[0]
    } else {
        joined(xs.drop_last(), sep) + sep + xs.last()
    }
}

pub open spec fn strings_view(v: Seq<String>) -> Seq<Seq<char>> {
    v.map_values(|s: String| s@)
}

/// Relies on `display_utils::join`: its `Display` writes the first item, then
/// the joiner and the next item for each further one.
#[verifier::external_body]
pub(crate) fn join(items: &Vec<String>, sep: &str) -> (r: String)
    ensures
        r@ == joined(strings_view(items@), sep@),
{
    display_utils::join(items.iter(), sep).to_string()
}

} // verus!
