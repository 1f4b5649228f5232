//! Character-level helpers: decimal rendering, diagnostics and string building.
use vstd::prelude::*;
use vstd::string::StringExecFns;

verus! {

/// The character of a decimal digit.
pub open spec fn digit_char(d: nat) -> char {
    if d == 0 {
        '0'
    } else if d == 1 {
        '1'
    } else if d == 2 {
        '2'
    } else if d == 3 {
        '3'
    } else if d == 4 {
        '4'
    } else if d == 5 {
        '5'
    } else if d == 6 {
        '6'
    } else if d == 7 {
        '7'
    } else if d == 8 {
        '8'
    } else {
        '9'
    }
}

/// The decimal digits of `n`, most significant first, without leading zeros.
pub open spec fn decimal(n: nat) -> Seq<char>
    decreases n,
{
    if n < 10 {
        seq![digit_char(n)]
    } else {
        decimal(n / 10) + seq![digit_char(n % 10)]
    }
}

/// A positioned diagnostic: `L{line}:{column} {message}`.
pub open spec fn diagnostic(line: nat, column: nat, message: Seq<char>) -> Seq<char> {
    seq!['L'] + decimal(line) + seq![':'] + decimal(column) + seq![' '] + message
}

/// Relies on `ToString` through the `Display` impl of `usize`, which writes an
/// unsigned integer in decimal without padding or sign.
#[verifier::external_body]
fn decimal_string(n: usize) -> (r: String)
    ensures
        r@ == decimal(n as nat),
{
    n.to_string()
}

/// Builds the diagnostic `L{line}:{column} {message}`.
pub(crate) fn make_diagnostic(line: usize, column: usize, message: &str) -> (r: String)
    ensures
        r@ == diagnostic(line as nat, column as nat, message@),
{
    let mut r = String::from_str("L");
    let l = decimal_string(line);
    r.append(l.as_str());
    r.append(":");
    let c = decimal_string(column);
    r.append(c.as_str());
    r.append(" ");
    r.append(message);
    proof {
        reveal_strlit("L");
        reveal_strlit(":");
        reveal_strlit(" ");
        assert(r@ =~= diagnostic(line as nat, column as nat, message@));
    }
    r
}

/// Relies on `FromIterator<char> for String` (`collect`): the characters in order.
#[verifier::external_body]
pub(crate) fn string_from_chars(chars: &Vec<char>, start: usize, end: usize) -> (r: String)
    requires
        start <= end <= chars@.len(),
    ensures
        r@ == chars@.subrange(start as int, end as int),
{
    chars[start..end].iter().collect()
}

/// Relies on `str::chars` collected into a `Vec`: the characters of `s` in order.
#[verifier::external_body]
pub(crate) fn chars_of(s: &str) -> (r: Vec<char>)
    ensures
        r@ == s@,
{
    s.chars().collect()
}

/// Relies on `String::push`: appends one character.
#[verifier::external_body]
pub(crate) fn push_char(s: &mut String, c: char)
    ensures
        final(s)@ == old(s)@.push(c),
{
    s.push(c)
}

} // verus!
