//! The bucket component: a cyclic selector over `{0, 1, 2}`.

use vstd::prelude::*;
use vstd::string::StringExecFns;

use crate::error::{decimal_chars, decimal_string, ParseError, ParseResult};

verus! {

/// The diagnostic message for a bucket value outside `[0, 2]`.
pub open spec fn bucket_message(v: u8) -> Seq<char> {
    "LexoRank bucket value must be between 0 and 2 inclusive. Found: "@ + decimal_chars(v)
}

/// A bucket identifier: an integer in the closed range `[0, 2]`.
///
/// Buckets namespace ranks during a rebalance; `next` and `prev` rotate
/// through the three values cyclically.
#[derive(Debug, Clone, Copy, PartialEq, Eq, Structural, PartialOrd, Ord, Hash)]
pub struct LexBucket(u8);

impl LexBucket {
    /// The numeric value held by this bucket.
    pub closed spec fn spec_value(&self) -> u8 {
        self.0
    }

    /// Well-formedness: the value never leaves `[0, 2]`.
    pub open spec fn inv(&self) -> bool {
        self.spec_value() <= 2
    }

    /// Every bucket in existence carries a value in `[0, 2]`.
    #[verifier::type_invariant]
    pub(crate) open spec fn well_formed(self) -> bool {
        self.inv()
    }

    /// Validated constructor: succeeds exactly when `value` is at most 2,
    /// and never clamps an out-of-range value.
    pub fn new(value: u8) -> (r: ParseResult<Self>)
        ensures
            r is Ok <==> value <= 2,
            value <= 2 ==> (r matches Ok(b) && b.spec_value() == value && b.inv()),
            value > 2 ==> (r matches Err(e) && e.0@ == bucket_message(value)),
    {
        if value > 2 {
            let msg = String::from_str(
                "LexoRank bucket value must be between 0 and 2 inclusive. Found: ",
            ).concat(decimal_string(value).as_str());
            Err(ParseError(msg))
        } else {
            Ok(LexBucket(value))
        }
    }

    /// The numeric value, always in `[0, 2]`.
    pub fn value(&self) -> (r: u8)
        ensures
            r == self.spec_value(),
            r <= 2,
    {
        proof {
            use_type_invariant(self);
        }
        self.0
    }

    /// Cyclic increment: `0 -> 1 -> 2 -> 0`.
    pub fn next(&self) -> (r: Self)
        ensures
            r == bucket_next(*self),
            r.spec_value() == if self.spec_value() == 2 { 0int } else { self.spec_value() + 1 },
            r.inv(),
    {
        proof {
            use_type_invariant(self);
        }
        if self.0 == 2 {
            LexBucket(0)
        } else {
            LexBucket(self.0 + 1)
        }
    }

    /// Cyclic decrement: `0 -> 2 -> 1 -> 0`.
    pub fn prev(&self) -> (r: Self)
        ensures
            r == bucket_prev(*self),
            r.spec_value() == if self.spec_value() == 0 { 2int } else { self.spec_value() - 1 },
            r.inv(),
    {
        proof {
            use_type_invariant(self);
        }
        if self.0 == 0 {
            LexBucket(2)
        } else {
            LexBucket(self.0 - 1)
        }
    }
}

impl TryFrom<u8> for LexBucket {
    type Error = ParseError;

    /// Validates the value, as `new` does.
    fn try_from(value: u8) -> (r: Result<Self, ParseError>) {
        LexBucket::new(value)
    }
}

impl vstd::std_specs::convert::TryFromSpecImpl<u8> for LexBucket {
    open spec fn obeys_try_from_spec() -> bool {
        false
    }

    open spec fn try_from_spec(v: u8) -> Result<Self, ParseError> {
        vstd::pervasive::arbitrary()
    }
}

/// Two buckets holding the same value are the same bucket: a bucket has no
/// identity beyond its numeric value.
pub proof fn lemma_bucket_value_determines(a: LexBucket, b: LexBucket)
    requires
        a.spec_value() == b.spec_value(),
    ensures
        a == b,
{
}

/// The bucket that `LexBucket::next` returns: the cyclic successor.
pub closed spec fn bucket_next(b: LexBucket) -> LexBucket {
    if b.spec_value() == 2 {
        LexBucket(0)
    } else {
        LexBucket((b.spec_value() + 1) as u8)
    }
}

/// The bucket that `LexBucket::prev` returns: the cyclic predecessor.
pub closed spec fn bucket_prev(b: LexBucket) -> LexBucket {
    if b.spec_value() == 0 {
        LexBucket(2)
    } else {
        LexBucket((b.spec_value() - 1) as u8)
    }
}

/// The three buckets form a cyclic group of order three under rotation:
/// three successive rotations in either direction return to the start, and
/// the two rotations are mutual inverses.
pub proof fn lemma_bucket_rotation(b: LexBucket)
    requires
        b.inv(),
    ensures
        bucket_next(bucket_next(bucket_next(b))) == b,
        bucket_prev(bucket_prev(bucket_prev(b))) == b,
        bucket_prev(bucket_next(b)) == b,
        bucket_next(bucket_prev(b)) == b,
{
}

/// Rotation never leaves the valid range, and relates the values of
/// neighbouring buckets exactly.
pub proof fn lemma_bucket_rotation_values(b: LexBucket)
    requires
        b.inv(),
    ensures
        bucket_next(b).inv(),
        bucket_prev(b).inv(),
        bucket_next(b).spec_value() == if b.spec_value() == 2 { 0 } else { b.spec_value() + 1 },
        bucket_prev(b).spec_value() == if b.spec_value() == 0 { 2 } else { b.spec_value() - 1 },
{
}

} // verus!
