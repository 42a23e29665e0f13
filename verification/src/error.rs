//! The validation error shared by bucket, rank, and composite-string parsing.

use vstd::prelude::*;
use vstd::string::StringExecFns;

verus! {

/// Error reported when a bucket value, a rank string, or a composite
/// `"<bucket>|<rank>"` string fails validation. Carries the full diagnostic
/// message, offending input included.
#[derive(Debug, Clone)]
pub struct ParseError(pub String);

/// Shorthand for the result of every validated constructor and parser.
pub type ParseResult<T> = core::result::Result<T, ParseError>;

impl ParseError {
    /// The diagnostic message carried by this error.
    pub fn message(&self) -> (r: &str)
        ensures
            r@ == self.0@,
    {
        self.0.as_str()
    }
}

impl<'a> From<&'a str> for ParseError {
    /// Wraps the given text as the error's message.
    fn from(value: &'a str) -> (r: Self) {
        ParseError(value.to_owned())
    }
}

impl<'a> vstd::std_specs::convert::FromSpecImpl<&'a str> for ParseError {
    open spec fn obeys_from_spec() -> bool {
        false
    }

    open spec fn from_spec(v: &'a str) -> Self {
        vstd::pervasive::arbitrary()
    }
}

impl PartialEq for ParseError {
    fn eq(&self, other: &Self) -> (r: bool) {
        self.0 == other.0
    }
}

impl vstd::std_specs::cmp::PartialEqSpecImpl for ParseError {
    open spec fn obeys_eq_spec() -> bool {
        true
    }

    open spec fn eq_spec(&self, other: &Self) -> bool {
        self.0@ == other.0@
    }
}

/// The decimal digit character for a value below ten.
pub open spec fn decimal_digit(d: u8) -> char
    recommends
        d < 10,
{
    (d + 0x30) as char
}

/// The decimal digit sequence of `v`, most significant digit first.
pub open spec fn decimal_chars(v: u8) -> Seq<char>
    decreases v,
{
    if v < 10 {
        seq![decimal_digit(v)]
    } else {
        decimal_chars(v / 10).push(decimal_digit(v % 10))
    }
}

/// Renders a byte value in decimal, as `format!("{}", v)` would.
pub fn decimal_string(v: u8) -> (r: String)
    ensures
        r@ == decimal_chars(v),
{
    let mut r = String::new();
    if v >= 100 {
        push_decimal_digit(&mut r, v / 100);
    }
    if v >= 10 {
        push_decimal_digit(&mut r, (v / 10) % 10);
    }
    push_decimal_digit(&mut r, v % 10);
    proof {
        if v >= 100 {
            assert(decimal_chars(v) == decimal_chars(v / 10).push(decimal_digit(v % 10)));
            assert(decimal_chars(v / 10) == decimal_chars(v / 100).push(decimal_digit((v / 10) % 10)));
            assert(decimal_chars(v / 100) == seq![decimal_digit(v / 100)]);
            assert(r@ =~= decimal_chars(v));
        } else if v >= 10 {
            assert(decimal_chars(v) == decimal_chars(v / 10).push(decimal_digit(v % 10)));
            assert(decimal_chars(v / 10) == seq![decimal_digit((v / 10) % 10)]);
            assert(r@ =~= decimal_chars(v));
        } else {
            assert(r@ =~= decimal_chars(v));
        }
    }
    r
}

/// Appends the character for the decimal digit `d` to `s`.
fn push_decimal_digit(s: &mut String, d: u8)
    requires
        d < 10,
    ensures
        final(s)@ == old(s)@.push(decimal_digit(d)),
{
    string_push(s, (d + 0x30) as char);
}

/// Relies on `String::push`, which the standard library documents as
/// appending the given character to the end of the string.
#[verifier::external_body]
pub(crate) fn string_push(s: &mut String, c: char)
    ensures
        final(s)@ == old(s)@.push(c),
{
    s.push(c);
}

} // verus!
