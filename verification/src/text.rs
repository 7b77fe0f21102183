//! Small string helpers with contracts over `Seq<char>` views.

use vstd::prelude::*;

verus! {

/// Calls `<str as PartialEq>::eq`: true exactly when both strings hold the
/// same characters.
#[verifier::external_body]
pub fn str_eq(a: &str, b: &str) -> (r: bool)
    ensures
        r == (a@ == b@),
{
    a == b
}

/// Calls `<char as ToString>::to_string`: the one-character string `c`.
#[verifier::external_body]
pub fn char_to_string(c: char) -> (s: String)
    ensures
        s@ == seq![c],
{
    c.to_string()
}

/// Calls `String::push`: appends one character.
#[verifier::external_body]
pub fn string_push(s: &mut String, c: char)
    ensures
        final(s)@ == old(s)@.push(c),
{
    s.push(c)
}

/// Appends a string slice.
pub fn string_push_str(s: &mut String, t: &str)
    ensures
        final(s)@ == old(s)@ + t@,
{
    s.append(t)
}

/// An owned copy of `s`.
pub fn str_to_owned(s: &str) -> (r: String)
    ensures
        r@ == s@,
{
    s.to_owned()
}

/// The characters of `s`, in order.
pub fn str_chars(s: &str) -> (v: Vec<char>)
    ensures
        v@ == s@,
{
    let mut v: Vec<char> = Vec::new();
    for c in it: s.chars()
        invariant
            v@ == it.seq().take(it.index() as int),
            it.seq() == s@,
    {
        v.push(c);
    }
    v
}

/// The decimal digit `d` (for `d < 10`).
pub open spec fn digit_char(d: nat) -> char {
    if d == 0 { '0' }
    else if d == 1 { '1' }
    else if d == 2 { '2' }
    else if d == 3 { '3' }
    else if d == 4 { '4' }
    else if d == 5 { '5' }
    else if d == 6 { '6' }
    else if d == 7 { '7' }
    else if d == 8 { '8' }
    else { '9' }
}

/// The decimal form of `n`, without leading zeros.
pub open spec fn decimal(n: nat) -> Seq<char>
    decreases n,
{
    if n < 10 {
        seq![digit_char(n)]
    } else {
        decimal(n / 10).push(digit_char(n % 10))
    }
}

fn digit(d: u64) -> (c: char)
    requires
        d < 10,
    ensures
        c == digit_char(d as nat),
{
    if d == 0 { '0' }
    else if d == 1 { '1' }
    else if d == 2 { '2' }
    else if d == 3 { '3' }
    else if d == 4 { '4' }
    else if d == 5 { '5' }
    else if d == 6 { '6' }
    else if d == 7 { '7' }
    else if d == 8 { '8' }
    else { '9' }
}

/// Append the decimal form of `n`.
pub fn push_decimal(s: &mut String, n: u64)
    ensures
        final(s)@ == old(s)@ + decimal(n as nat),
    decreases n,
{
    if n >= 10 {
        push_decimal(s, n / 10);
    }
    let c = digit(n % 10);
    string_push(s, c);
    proof {
        if n >= 10 {
            assert(old(s)@ + decimal(n as nat) =~= (old(s)@ + decimal((n / 10) as nat)).push(c));
        } else {
            assert(old(s)@ + decimal(n as nat) =~= old(s)@.push(c));
        }
    }
}

/// `parts` joined with `sep` between neighbours.
pub open spec fn joined(parts: Seq<Seq<char>>, sep: Seq<char>) -> Seq<char>
    decreases parts.len(),
{
    if parts.len() == 0 {
        Seq::<char>::empty()
    } else if parts.len() == 1 {
        parts[0]
    } else {
        joined(parts.drop_last(), sep) + sep + parts.last()
    }
}

/// Append `parts` joined with `sep`.
pub fn push_joined(s: &mut String, parts: &Vec<String>, sep: &str)
    ensures
        final(s)@ == old(s)@ + joined(parts@.map_values(|p: String| p@), sep@),
{
    let ghost ps = parts@.map_values(|p: String| p@);
    let ghost s0 = s@;
    let mut i: usize = 0;
    while i < parts.len()
        invariant
            i <= parts@.len(),
            ps == parts@.map_values(|p: String| p@),
            s@ == s0 + joined(ps.take(i as int), sep@),
        decreases parts@.len() - i,
    {
        if i > 0 {
            string_push_str(s, sep);
        }
        string_push_str(s, parts[i].as_str());
        proof {
            let pre = ps.take(i as int);
            let now = ps.take(i + 1);
            assert(now.drop_last() =~= pre);
            assert(now.last() == parts@[i as int]@);
            if i == 0 {
                assert(pre =~= Seq::<Seq<char>>::empty());
                assert(joined(pre, sep@) =~= Seq::<char>::empty());
                assert(s@ =~= s0 + joined(now, sep@));
            } else {
                assert(s@ =~= s0 + joined(now, sep@));
            }
        }
        i = i + 1;
    }
    proof {
        assert(ps.take(parts@.len() as int) =~= ps);
    }
}

/// What `format!("{:?}", s)` gives for a string: its quoted, escaped form.
pub uninterp spec fn str_debug_form(s: Seq<char>) -> Seq<char>;

/// Calls `<str as Debug>::fmt` (through `format!`): the quoted, escaped
/// form of `s`. Only that the result is a function of `s` is stated.
#[verifier::external_body]
pub fn str_debug(s: &str) -> (r: String)
    ensures
        r@ == str_debug_form(s@),
{
    format!("{:?}", s)
}

/// The quoted forms of the strings, separated by `", "`.
pub open spec fn debug_items(v: Seq<Seq<char>>) -> Seq<char>
    decreases v.len(),
{
    if v.len() == 0 {
        Seq::empty()
    } else if v.len() == 1 {
        str_debug_form(v[0])
    } else {
        debug_items(v.drop_last()) + ", "@ + str_debug_form(v.last())
    }
}

/// What `format!("{:?}", v)` gives for a list of strings: `[`, the quoted
/// forms separated by `", "`, then `]`.
pub open spec fn strings_debug_form(v: Seq<Seq<char>>) -> Seq<char> {
    "["@ + debug_items(v) + "]"@
}

/// Calls `<Vec<String> as Debug>::fmt` (through `format!`): `[`, each
/// string's quoted, escaped form (as [`str_debug`] gives it) separated by
/// `", "`, then `]`.
#[verifier::external_body]
pub fn strings_debug(v: &Vec<String>) -> (r: String)
    ensures
        r@ == strings_debug_form(v@.map_values(|p: String| p@)),
{
    format!("{:?}", v)
}

} // verus!
