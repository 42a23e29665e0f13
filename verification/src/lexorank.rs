//! The composite key: a bucket and a rank, serialized as
//! `"<bucket>|<rank>"`.

use vstd::prelude::*;
use vstd::string::{StrSliceExecFns, StringExecFns};

use crate::bucket::{bucket_message, LexBucket};
use crate::error::{decimal_digit, ParseError, ParseResult};
use crate::order::{lex_lt, lex_max, lex_min};
use crate::value::{rank_between, rank_message, rank_next, rank_prev, valid_rank, LexValue};

verus! {

/// The diagnostic message for a composite string whose structure is broken:
/// no separator, or a bucket segment that is not an integer a byte can hold.
pub open spec fn composite_message(s: Seq<char>) -> Seq<char> {
    "Cannot create LexoRank from invalid string. Found: "@ + s
}

/// Whether `c` is a decimal digit `0-9`.
pub open spec fn is_digit_char(c: char) -> bool {
    ('0' as int) <= c as int <= ('9' as int)
}

/// The first position at or after `i` holding the separator `'|'`, or
/// `s.len()` when there is none.
pub open spec fn bar_index_from(s: Seq<char>, i: int) -> int
    decreases s.len() - i,
{
    if i >= s.len() {
        s.len() as int
    } else if s[i] == '|' {
        i
    } else {
        bar_index_from(s, i + 1)
    }
}

/// `bar_index_from` is the unique position at or after `i` preceded (from
/// `i` on) by no separator and, if in range, holding one.
pub proof fn lemma_bar_index_is(s: Seq<char>, i: int, e: int)
    requires
        0 <= i <= e <= s.len(),
        forall|m: int| i <= m < e ==> s[m] != '|',
        e < s.len() ==> s[e] == '|',
    ensures
        bar_index_from(s, i) == e,
    decreases e - i,
{
    if i < e {
        lemma_bar_index_is(s, i + 1, e);
    }
}

/// The numeric value of a digit string, most significant digit first.
pub open spec fn digits_value(s: Seq<char>) -> int
    decreases s.len(),
{
    if s.len() == 0 {
        0
    } else {
        digits_value(s.drop_last()) * 10 + (s[s.len() - 1] as int - ('0' as int))
    }
}

/// A digit string's value is never negative.
pub proof fn lemma_digits_value_nonneg(s: Seq<char>)
    requires
        forall|j: int| 0 <= j < s.len() ==> is_digit_char(#[trigger] s[j]),
    ensures
        digits_value(s) >= 0,
    decreases s.len(),
{
    if s.len() > 0 {
        let t = s.drop_last();
        assert forall|j: int| 0 <= j < t.len() implies is_digit_char(#[trigger] t[j]) by {
            assert(t[j] == s[j]);
        }
        lemma_digits_value_nonneg(t);
    }
}

/// Extending a digit string on the right cannot shrink its value.
pub proof fn lemma_digits_value_take(s: Seq<char>, m: int)
    requires
        forall|j: int| 0 <= j < s.len() ==> is_digit_char(#[trigger] s[j]),
        0 <= m <= s.len(),
    ensures
        digits_value(s.take(m)) <= digits_value(s),
    decreases s.len(),
{
    if m == s.len() {
        assert(s.take(m) =~= s);
    } else {
        let t = s.drop_last();
        assert forall|j: int| 0 <= j < t.len() implies is_digit_char(#[trigger] t[j]) by {
            assert(t[j] == s[j]);
        }
        lemma_digits_value_nonneg(t);
        assert(is_digit_char(s[s.len() - 1]));
        assert(digits_value(s) >= digits_value(t));
        assert(t.take(m) =~= s.take(m));
        lemma_digits_value_take(t, m);
    }
}

/// Whether `s` is a key in canonical wire format: a single bucket digit in
/// `{0, 1, 2}`, the `'|'` separator, and a valid rank. `serialize` always
/// produces this form.
pub open spec fn canonical_lexo_string(s: Seq<char>) -> bool {
    &&& s.len() >= 3
    &&& (s[0] == '0' || s[0] == '1' || s[0] == '2')
    &&& s[1] == '|'
    &&& valid_rank(s.skip(2))
}

/// Whether `from_string` accepts `s`: a non-empty bucket segment of decimal
/// digits whose integer value is at most 2, the `'|'` separator, and a
/// valid rank. Since neither segment can hold `'|'`, the separator is
/// unique in an accepted string.
pub open spec fn valid_lexo_string(s: Seq<char>) -> bool {
    let i = bar_index_from(s, 0);
    &&& 1 <= i < s.len()
    &&& (forall|j: int| 0 <= j < i ==> is_digit_char(#[trigger] s[j]))
    &&& digits_value(s.take(i)) <= 2
    &&& valid_rank(s.skip(i + 1))
}

/// The message a failing parse carries: the bucket-range message for an
/// integer bucket segment above 2 that a byte can hold, the rank message
/// for a rank segment that fails validation behind an in-range bucket, and
/// the composite message for everything structural (no separator, an empty
/// or non-numeric bucket segment, a value no byte can hold).
pub open spec fn parse_error_message(s: Seq<char>) -> Seq<char>
    recommends
        !valid_lexo_string(s),
{
    let i = bar_index_from(s, 0);
    if !(1 <= i < s.len()) || !(forall|j: int| 0 <= j < i ==> is_digit_char(#[trigger] s[j]))
        || digits_value(s.take(i)) > 255 {
        composite_message(s)
    } else if digits_value(s.take(i)) > 2 {
        bucket_message(digits_value(s.take(i)) as u8)
    } else {
        rank_message(s.skip(i + 1))
    }
}

/// A canonical string is accepted, its bucket segment is the single
/// leading digit, and its rank segment starts right after the separator.
pub proof fn lemma_canonical_is_valid(s: Seq<char>)
    requires
        canonical_lexo_string(s),
    ensures
        valid_lexo_string(s),
        bar_index_from(s, 0) == 1,
        digits_value(s.take(1)) == (s[0] as int) - ('0' as int),
{
    lemma_bar_index_is(s, 0, 1);
    assert(s.take(1).len() == 1);
    assert(s.take(1).drop_last() =~= Seq::<char>::empty());
    assert(digits_value(Seq::<char>::empty()) == 0);
    assert(s.take(1)[0] == s[0]);
    assert(digits_value(s.take(1)) == (s.take(1)[0] as int) - ('0' as int));
    assert(s.skip(2) =~= s.skip(1int + 1));
}

/// The serialized form of a key with bucket `b` and rank string `r`.
pub open spec fn lexo_string(b: LexBucket, r: Seq<char>) -> Seq<char> {
    seq![decimal_digit(b.spec_value()), '|'] + r
}

/// A sortable ranking key: a bucket paired with a rank. Ordering operations
/// act on the rank and carry the bucket through unchanged.
#[derive(Debug)]
pub struct LexoRank {
    bucket: LexBucket,
    rank: LexValue,
}

impl Clone for LexoRank {
    /// Clones carry both fields over exactly.
    fn clone(&self) -> (r: Self)
        ensures
            r.spec_bucket() == self.spec_bucket(),
            r.spec_rank() == self.spec_rank(),
    {
        LexoRank { bucket: self.bucket, rank: self.rank.clone() }
    }
}

impl LexoRank {
    /// The bucket this key belongs to.
    pub closed spec fn spec_bucket(&self) -> LexBucket {
        self.bucket
    }

    /// The rank string this key carries.
    pub closed spec fn spec_rank(&self) -> Seq<char> {
        self.rank@
    }

    /// Composes a bucket and a rank into a key; total, with nothing to
    /// validate beyond what each part already enforces.
    pub fn new(bucket: LexBucket, rank: LexValue) -> (r: Self)
        ensures
            r.spec_bucket() == bucket,
            r.spec_rank() == rank@,
    {
        LexoRank { bucket, rank }
    }

    /// Parses a serialized key: splits on the `'|'` separator, reads the
    /// part before it as an integer bucket, and the part after it as a
    /// rank. An out-of-range bucket and an invalid rank fail with those
    /// components' own errors; a structurally broken string fails with the
    /// composite error.
    #[verifier::loop_isolation(false)]
    pub fn from_string(value: &str) -> (r: ParseResult<Self>)
        ensures
            r is Ok <==> valid_lexo_string(value@),
            valid_lexo_string(value@) ==> (r matches Ok(l) && {
                &&& l.spec_bucket().spec_value() as int == digits_value(
                    value@.take(bar_index_from(value@, 0)),
                )
                &&& l.spec_rank() == value@.skip(bar_index_from(value@, 0) + 1)
            }),
            !valid_lexo_string(value@) ==> (r matches Err(e) && e.0@ == parse_error_message(
                value@,
            )),
    {
        let n = value.unicode_len();
        let sep = find_bar(value);
        if sep == n || sep == 0 {
            return Err(ParseError(composite_error_string(value)));
        }
        let ghost bseg = value@.take(sep as int);
        let mut acc: u32 = 0;
        let mut j: usize = 0;
        while j < sep
            invariant
                0 <= j <= sep,
                forall|m: int| 0 <= m < j ==> is_digit_char(#[trigger] value@[m]),
                acc as int == digits_value(value@.take(j as int)),
                acc <= 255,
            decreases sep - j,
        {
            let c = value.get_char(j);
            let u = c as u32;
            if !(48 <= u && u <= 57) {
                proof {
                    assert(!is_digit_char(value@[j as int]));
                }
                return Err(ParseError(composite_error_string(value)));
            }
            let d = u - 48;
            proof {
                assert(value@.take(j as int + 1).drop_last() =~= value@.take(j as int));
                assert(value@.take(j as int + 1)[j as int] == value@[j as int]);
            }
            if acc * 10 + d > 255 {
                proof {
                    assert(digits_value(value@.take(j as int + 1)) == acc * 10 + d);
                    if forall|m: int| 0 <= m < sep ==> is_digit_char(#[trigger] value@[m]) {
                        assert forall|m: int| 0 <= m < bseg.len() implies is_digit_char(
                            #[trigger] bseg[m],
                        ) by {
                            assert(bseg[m] == value@[m]);
                        }
                        assert(bseg.take(j as int + 1) =~= value@.take(j as int + 1));
                        lemma_digits_value_take(bseg, j as int + 1);
                    }
                }
                return Err(ParseError(composite_error_string(value)));
            }
            acc = acc * 10 + d;
            j += 1;
        }
        match LexBucket::new(acc as u8) {
            Ok(bucket) => {
                let rank_part = value.substring_char(sep + 1, n);
                proof {
                    assert(rank_part@ =~= value@.skip(sep as int + 1));
                }
                match LexValue::new(rank_part) {
                    Ok(rank) => Ok(LexoRank { bucket, rank }),
                    Err(e) => Err(e),
                }
            },
            Err(e) => Err(e),
        }
    }

    /// Renders this key as `"<bucket>|<rank>"` in canonical wire format,
    /// which `from_string` accepts and maps back to this key's bucket value
    /// and rank string.
    pub fn serialize(&self) -> (r: String)
        ensures
            r@ == lexo_string(self.spec_bucket(), self.spec_rank()),
            canonical_lexo_string(r@),
            valid_lexo_string(r@),
    {
        proof {
            use_type_invariant(&self.bucket);
            reveal_strlit("0|");
            reveal_strlit("1|");
            reveal_strlit("2|");
        }
        let v = self.bucket.value();
        let head = if v == 0 {
            "0|"
        } else if v == 1 {
            "1|"
        } else {
            "2|"
        };
        let r = String::from_str(head).concat(self.rank.value());
        proof {
            assert(r@ =~= lexo_string(self.spec_bucket(), self.spec_rank()));
            assert(r@.skip(2) =~= self.spec_rank());
            lemma_canonical_is_valid(r@);
        }
        r
    }

    /// The bucket component.
    pub fn bucket(&self) -> (r: &LexBucket)
        ensures
            r == self.spec_bucket(),
    {
        &self.bucket
    }

    /// The rank component.
    pub fn rank(&self) -> (r: &LexValue)
        ensures
            r@ == self.spec_rank(),
    {
        &self.rank
    }

    /// The key holding this key's bucket and the successor of its rank.
    pub fn next(&self) -> (r: Self)
        ensures
            r.spec_bucket() == self.spec_bucket(),
            r.spec_rank() == rank_next(self.spec_rank()),
            valid_rank(r.spec_rank()),
            lex_lt(self.spec_rank(), r.spec_rank()),
    {
        LexoRank { bucket: self.bucket, rank: self.rank.next() }
    }

    /// The key holding this key's bucket and the predecessor of its rank.
    pub fn prev(&self) -> (r: Self)
        ensures
            r.spec_bucket() == self.spec_bucket(),
            r.spec_rank() == rank_prev(self.spec_rank()),
            valid_rank(r.spec_rank()),
            lex_lt(r.spec_rank(), self.spec_rank()),
    {
        LexoRank { bucket: self.bucket, rank: self.rank.prev() }
    }

    /// A key holding this key's bucket and a rank strictly between the two
    /// ranks, or nothing when the ranks are equal. The second operand's
    /// bucket is ignored; callers are expected to combine keys of one
    /// bucket only.
    pub fn between(&self, rank2: &Self) -> (r: Option<Self>)
        ensures
            r is Some <==> self.spec_rank() != rank2.spec_rank(),
            r matches Some(l) ==> {
                &&& l.spec_bucket() == self.spec_bucket()
                &&& l.spec_rank() == rank_between(
                    lex_min(self.spec_rank(), rank2.spec_rank()),
                    lex_max(self.spec_rank(), rank2.spec_rank()),
                )
                &&& valid_rank(l.spec_rank())
                &&& lex_lt(lex_min(self.spec_rank(), rank2.spec_rank()), l.spec_rank())
                &&& lex_lt(l.spec_rank(), lex_max(self.spec_rank(), rank2.spec_rank()))
            },
    {
        match self.rank.between(&rank2.rank) {
            Some(rank) => Some(LexoRank { bucket: self.bucket, rank }),
            None => None,
        }
    }
}

/// The position of the first `'|'` in `s`, or its length when none occurs.
fn find_bar(s: &str) -> (r: usize)
    ensures
        r as int == bar_index_from(s@, 0),
        r <= s@.len(),
{
    let n = s.unicode_len();
    let mut i: usize = 0;
    while i < n
        invariant
            0 <= i <= n,
            n == s@.len(),
            forall|m: int| 0 <= m < i ==> s@[m] != '|',
        decreases n - i,
    {
        if s.get_char(i) == '|' {
            proof {
                lemma_bar_index_is(s@, 0, i as int);
            }
            return i;
        }
        i += 1;
    }
    proof {
        lemma_bar_index_is(s@, 0, n as int);
    }
    n
}

/// The composite-format diagnostic message for the offending input `value`.
fn composite_error_string(value: &str) -> (r: String)
    ensures
        r@ == composite_message(value@),
{
    String::from_str("Cannot create LexoRank from invalid string. Found: ").concat(value)
}

impl PartialEq for LexoRank {
    fn eq(&self, other: &Self) -> (r: bool) {
        self.bucket == other.bucket && self.rank == other.rank
    }
}

impl vstd::std_specs::cmp::PartialEqSpecImpl for LexoRank {
    open spec fn obeys_eq_spec() -> bool {
        true
    }

    open spec fn eq_spec(&self, other: &Self) -> bool {
        self.spec_bucket() == other.spec_bucket() && self.spec_rank() == other.spec_rank()
    }
}

impl<'a> TryFrom<&'a str> for LexoRank {
    type Error = ParseError;

    /// Parses a serialized key, as `from_string` does.
    fn try_from(value: &'a str) -> (r: Result<Self, ParseError>) {
        LexoRank::from_string(value)
    }
}

impl<'a> vstd::std_specs::convert::TryFromSpecImpl<&'a str> for LexoRank {
    open spec fn obeys_try_from_spec() -> bool {
        false
    }

    open spec fn try_from_spec(v: &'a str) -> Result<Self, ParseError> {
        vstd::pervasive::arbitrary()
    }
}

/// Round-trip law: a key parsed from a canonical wire string serializes
/// back to that string exactly. The hypotheses on `l` are what
/// `from_string` ensures of its result on `s`.
pub proof fn lemma_round_trip(s: Seq<char>, l: LexoRank)
    requires
        canonical_lexo_string(s),
        l.spec_bucket().spec_value() as int == digits_value(s.take(bar_index_from(s, 0))),
        l.spec_rank() == s.skip(bar_index_from(s, 0) + 1),
    ensures
        lexo_string(l.spec_bucket(), l.spec_rank()) == s,
{
    lemma_canonical_is_valid(s);
    assert(s.skip(2) =~= s.skip(1int + 1));
    assert(decimal_digit(l.spec_bucket().spec_value()) == s[0]);
    assert(lexo_string(l.spec_bucket(), l.spec_rank()) =~= s);
}

/// Round-trip law, other direction: the serialized form of any key is a
/// canonical, accepted string that parses back to the same bucket value
/// and the same rank string.
pub proof fn lemma_serialize_parses_back(l: LexoRank)
    requires
        l.spec_bucket().spec_value() <= 2,
        valid_rank(l.spec_rank()),
    ensures
        ({
            let s = lexo_string(l.spec_bucket(), l.spec_rank());
            &&& canonical_lexo_string(s)
            &&& valid_lexo_string(s)
            &&& digits_value(s.take(bar_index_from(s, 0))) == l.spec_bucket().spec_value() as int
            &&& s.skip(bar_index_from(s, 0) + 1) == l.spec_rank()
        }),
{
    let s = lexo_string(l.spec_bucket(), l.spec_rank());
    assert(s.skip(2) =~= l.spec_rank());
    lemma_canonical_is_valid(s);
    assert(s.skip(1int + 1) =~= s.skip(2));
}

} // verus!
