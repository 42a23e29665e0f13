//! Lexicographic ordering of character sequences.
//!
//! Ranks compare as plain sequences of symbols: the first differing position
//! decides, and a proper prefix sorts before every extension of it. This
//! module defines that order as a spec function, proves the order-theoretic
//! facts the rank operations rely on, and provides a verified three-way
//! string comparison.

use vstd::prelude::*;
use vstd::string::StrSliceExecFns;

verus! {

/// Strict lexicographic order on character sequences: `a` sorts before `b`.
pub open spec fn lex_lt(a: Seq<char>, b: Seq<char>) -> bool
    decreases a.len(),
{
    if b.len() == 0 {
        false
    } else if a.len() == 0 {
        true
    } else if a[0] != b[0] {
        (a[0] as int) < (b[0] as int)
    } else {
        lex_lt(a.drop_first(), b.drop_first())
    }
}

/// The lexicographically smaller of two sequences.
pub open spec fn lex_min(a: Seq<char>, b: Seq<char>) -> Seq<char> {
    if lex_lt(b, a) {
        b
    } else {
        a
    }
}

/// The lexicographically larger of two sequences.
pub open spec fn lex_max(a: Seq<char>, b: Seq<char>) -> Seq<char> {
    if lex_lt(b, a) {
        a
    } else {
        b
    }
}

/// No sequence sorts before itself.
pub proof fn lemma_lex_irreflexive(a: Seq<char>)
    ensures
        !lex_lt(a, a),
    decreases a.len(),
{
    if a.len() > 0 {
        lemma_lex_irreflexive(a.drop_first());
    }
}

/// Dropping an equal prefix of length `i` from both sequences does not
/// change how they compare.
pub proof fn lemma_lex_skip(a: Seq<char>, b: Seq<char>, i: int)
    requires
        0 <= i <= a.len(),
        i <= b.len(),
        forall|j: int| 0 <= j < i ==> a[j] == b[j],
    ensures
        lex_lt(a, b) == lex_lt(a.skip(i), b.skip(i)),
    decreases i,
{
    if i > 0 {
        assert(a[0] == b[0]);
        lemma_lex_skip(a.drop_first(), b.drop_first(), i - 1);
        assert(a.drop_first().skip(i - 1) =~= a.skip(i));
        assert(b.drop_first().skip(i - 1) =~= b.skip(i));
    } else {
        assert(a.skip(0) =~= a);
        assert(b.skip(0) =~= b);
    }
}

/// A proper prefix sorts strictly before every extension of it.
pub proof fn lemma_lex_prefix(a: Seq<char>, b: Seq<char>)
    requires
        a.len() < b.len(),
        forall|j: int| 0 <= j < a.len() ==> a[j] == b[j],
    ensures
        lex_lt(a, b),
{
    lemma_lex_skip(a, b, a.len() as int);
    assert(a.skip(a.len() as int) =~= Seq::<char>::empty());
    assert(b.skip(a.len() as int).len() > 0);
}

/// When two sequences agree before position `i` and differ at `i`, the
/// characters at `i` decide the comparison.
pub proof fn lemma_lex_first_diff(a: Seq<char>, b: Seq<char>, i: int)
    requires
        0 <= i < a.len(),
        i < b.len(),
        forall|j: int| 0 <= j < i ==> a[j] == b[j],
        a[i] != b[i],
    ensures
        lex_lt(a, b) == ((a[i] as int) < (b[i] as int)),
{
    lemma_lex_skip(a, b, i);
    assert(a.skip(i)[0] == a[i]);
    assert(b.skip(i)[0] == b[i]);
}

/// Appending to a common prefix compares like the appended parts alone.
pub proof fn lemma_lex_append_cancel(p: Seq<char>, x: Seq<char>, y: Seq<char>)
    ensures
        lex_lt(p + x, p + y) == lex_lt(x, y),
{
    lemma_lex_skip(p + x, p + y, p.len() as int);
    assert((p + x).skip(p.len() as int) =~= x);
    assert((p + y).skip(p.len() as int) =~= y);
}

/// The order is asymmetric: two sequences never sort before each other.
pub proof fn lemma_lex_asymmetric(a: Seq<char>, b: Seq<char>)
    ensures
        !(lex_lt(a, b) && lex_lt(b, a)),
    decreases a.len(),
{
    if a.len() > 0 && b.len() > 0 && a[0] == b[0] {
        lemma_lex_asymmetric(a.drop_first(), b.drop_first());
    }
}

/// The order is total: two sequences are equal or one sorts before the other.
pub proof fn lemma_lex_total(a: Seq<char>, b: Seq<char>)
    ensures
        a == b || lex_lt(a, b) || lex_lt(b, a),
    decreases a.len(),
{
    if a.len() == 0 && b.len() == 0 {
        assert(a =~= b);
    } else if b.len() == 0 {
        assert(lex_lt(b, a));
    } else if a.len() == 0 {
        assert(lex_lt(a, b));
    } else if a[0] != b[0] {
        if (a[0] as int) < (b[0] as int) {
            assert(lex_lt(a, b));
        } else {
            assert((b[0] as int) < (a[0] as int));
            assert(lex_lt(b, a));
        }
    } else {
        lemma_lex_total(a.drop_first(), b.drop_first());
        if a.drop_first() == b.drop_first() {
            assert(a =~= b) by {
                assert(a.drop_first().len() == a.len() - 1);
                assert(b.drop_first().len() == b.len() - 1);
                assert(a.len() == b.len());
                assert forall|i: int| 0 <= i < a.len() implies a[i] == b[i] by {
                    if i > 0 {
                        assert(a[i] == a.drop_first()[i - 1]);
                        assert(b[i] == b.drop_first()[i - 1]);
                    }
                }
            }
        }
    }
}

/// The order is transitive.
pub proof fn lemma_lex_transitive(a: Seq<char>, b: Seq<char>, c: Seq<char>)
    requires
        lex_lt(a, b),
        lex_lt(b, c),
    ensures
        lex_lt(a, c),
    decreases a.len(),
{
    if a.len() > 0 && b.len() > 0 && c.len() > 0 && a[0] == b[0] && b[0] == c[0] {
        lemma_lex_transitive(a.drop_first(), b.drop_first(), c.drop_first());
    }
}

/// The sequences agree before position `i` and `a` has the strictly smaller
/// character at `i`.
pub open spec fn lex_diff_at(a: Seq<char>, b: Seq<char>, i: int) -> bool {
    &&& 0 <= i < a.len()
    &&& i < b.len()
    &&& (forall|j: int| 0 <= j < i ==> a[j] == b[j])
    &&& a[i] != b[i]
    &&& (a[i] as int) < (b[i] as int)
}

/// How a strict comparison can arise: either `a` is a proper prefix of `b`,
/// or the first differing position carries a strictly smaller character.
pub proof fn lemma_lex_lt_inversion(a: Seq<char>, b: Seq<char>)
    requires
        lex_lt(a, b),
    ensures
        (a.len() < b.len() && (forall|j: int| 0 <= j < a.len() ==> a[j] == b[j])) || exists|i: int|
            lex_diff_at(a, b, i),
    decreases a.len(),
{
    if a.len() == 0 {
    } else if a[0] != b[0] {
        assert(lex_diff_at(a, b, 0));
    } else {
        lemma_lex_lt_inversion(a.drop_first(), b.drop_first());
        if a.drop_first().len() < b.drop_first().len() && (forall|j: int|
            0 <= j < a.drop_first().len() ==> a.drop_first()[j] == b.drop_first()[j]) {
            assert forall|j: int| 0 <= j < a.len() implies a[j] == b[j] by {
                if j > 0 {
                    assert(a.drop_first()[j - 1] == b.drop_first()[j - 1]);
                }
            }
        } else {
            let i = choose|i: int| lex_diff_at(a.drop_first(), b.drop_first(), i);
            assert(lex_diff_at(a, b, i + 1)) by {
                assert(a[i + 1] == a.drop_first()[i]);
                assert(b[i + 1] == b.drop_first()[i]);
                assert forall|j: int| 0 <= j < i + 1 implies a[j] == b[j] by {
                    if j > 0 {
                        assert(a.drop_first()[j - 1] == b.drop_first()[j - 1]);
                    }
                }
            }
        }
    }
}

/// Whether `a` sorts strictly before `b`.
pub(crate) fn str_lt(a: &str, b: &str) -> (r: bool)
    ensures
        r == lex_lt(a@, b@),
{
    matches!(str_compare(a, b), core::cmp::Ordering::Less)
}

/// Three-way lexicographic comparison of two strings.
pub(crate) fn str_compare(a: &str, b: &str) -> (r: core::cmp::Ordering)
    ensures
        r == core::cmp::Ordering::Less <==> lex_lt(a@, b@),
        r == core::cmp::Ordering::Equal <==> a@ == b@,
        r == core::cmp::Ordering::Greater <==> lex_lt(b@, a@),
{
    proof {
        lemma_lex_irreflexive(a@);
        lemma_lex_asymmetric(a@, b@);
    }
    let a_len = a.unicode_len();
    let b_len = b.unicode_len();
    let min: usize = if a_len < b_len {
        a_len
    } else {
        b_len
    };
    let mut i: usize = 0;
    while i < min
        invariant
            min <= a_len,
            min <= b_len,
            a_len == a@.len(),
            b_len == b@.len(),
            0 <= i <= min,
            forall|j: int| 0 <= j < i ==> a@[j] == b@[j],
        decreases min - i,
    {
        let ca = a.get_char(i);
        let cb = b.get_char(i);
        if ca != cb {
            proof {
                lemma_lex_first_diff(a@, b@, i as int);
                lemma_lex_first_diff(b@, a@, i as int);
                lemma_lex_asymmetric(a@, b@);
            }
            if (ca as u32) < (cb as u32) {
                return core::cmp::Ordering::Less;
            } else {
                assert((cb as u32) < (ca as u32));
                return core::cmp::Ordering::Greater;
            }
        }
        i += 1;
    }
    if a_len < b_len {
        proof {
            lemma_lex_prefix(a@, b@);
            lemma_lex_asymmetric(a@, b@);
        }
        core::cmp::Ordering::Less
    } else if b_len < a_len {
        proof {
            lemma_lex_prefix(b@, a@);
            lemma_lex_asymmetric(a@, b@);
        }
        core::cmp::Ordering::Greater
    } else {
        proof {
            assert(a@ =~= b@);
            lemma_lex_irreflexive(a@);
        }
        core::cmp::Ordering::Equal
    }
}

} // verus!
