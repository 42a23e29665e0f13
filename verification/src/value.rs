//! The rank component: validated strings over `0-9a-z` with successor,
//! predecessor, and midpoint computation.
//!
//! A rank is a non-empty string over the 36-symbol alphabet `0-9a-z` whose
//! last character is not `'0'`; ranks are ordered lexicographically. The
//! trailing-non-zero invariant keeps every ordering position canonical: no
//! two distinct rank strings denote the same position.

use vstd::prelude::*;
use vstd::string::{StrSliceExecFns, StringExecFns};

use crate::error::{ParseError, ParseResult};
use crate::order::{lex_lt, lemma_lex_asymmetric, lemma_lex_total, str_compare};

verus! {

/// Whether `c` belongs to the rank alphabet `0-9a-z`.
pub open spec fn is_rank_char(c: char) -> bool {
    ||| ('0' as int) <= c as int <= ('9' as int)
    ||| ('a' as int) <= c as int <= ('z' as int)
}

/// Whether `s` is a valid rank: non-empty, alphabet-restricted, and not
/// ending in the lowest symbol `'0'`.
pub open spec fn valid_rank(s: Seq<char>) -> bool {
    &&& s.len() > 0
    &&& (forall|i: int| 0 <= i < s.len() ==> is_rank_char(#[trigger] s[i]))
    &&& s[s.len() - 1] != '0'
}

/// The successor of `c` in the alphabet: digits count up, `'9'` rolls over
/// to `'a'`, letters count up. Meaningful for alphabet characters below `'z'`.
pub open spec fn char_inc(c: char) -> char {
    if c == '9' {
        'a'
    } else {
        ((c as u8) + 1) as char
    }
}

/// The predecessor of `c` in the alphabet: the mirror image of `char_inc`,
/// with `'a'` rolling down to `'9'`. Meaningful for alphabet characters
/// above `'0'`.
pub open spec fn char_dec(c: char) -> char {
    if c == 'a' {
        '9'
    } else {
        ((c as u8) - 1) as char
    }
}

/// Incrementing an alphabet character other than `'z'` stays in the
/// alphabet, never yields `'0'`, moves strictly up, and is undone by
/// `char_dec`.
pub proof fn lemma_char_inc(c: char)
    requires
        is_rank_char(c),
        c != 'z',
    ensures
        is_rank_char(char_inc(c)),
        char_inc(c) != '0',
        (c as int) < (char_inc(c) as int),
        char_dec(char_inc(c)) == c,
{
}

/// Decrementing an alphabet character other than `'0'` stays in the
/// alphabet, never yields `'z'`, moves strictly down, and is undone by
/// `char_inc`; below `'1'` is impossible unless the character was `'1'`.
pub proof fn lemma_char_dec(c: char)
    requires
        is_rank_char(c),
        c != '0',
    ensures
        is_rank_char(char_dec(c)),
        char_dec(c) != 'z',
        (char_dec(c) as int) < (c as int),
        char_inc(char_dec(c)) == c,
        c != '1' ==> char_dec(c) != '0',
{
}

/// The alphabet successor of `*c`, or nothing when `*c` is the maximal
/// symbol `'z'`.
pub fn increment_char(c: &char) -> (r: Option<char>)
    requires
        is_rank_char(*c),
    ensures
        r is Some <==> *c != 'z',
        *c != 'z' ==> r == Some(char_inc(*c)),
{
    if *c == 'z' {
        None
    } else {
        Some(char_successor(*c))
    }
}

/// The alphabet predecessor of `*c`, or nothing when `*c` is the minimal
/// symbol `'0'`.
pub fn decrement_char(c: &char) -> (r: Option<char>)
    requires
        is_rank_char(*c),
    ensures
        r is Some <==> *c != '0',
        *c != '0' ==> r == Some(char_dec(*c)),
{
    if *c == '0' {
        None
    } else {
        Some(char_predecessor(*c))
    }
}

/// The alphabet successor of a non-maximal alphabet character.
fn char_successor(c: char) -> (r: char)
    requires
        is_rank_char(c),
        c != 'z',
    ensures
        r == char_inc(c),
{
    if c == '9' {
        'a'
    } else {
        ((c as u8) + 1) as char
    }
}

/// The alphabet predecessor of a non-minimal alphabet character.
fn char_predecessor(c: char) -> (r: char)
    requires
        is_rank_char(c),
        c != '0',
    ensures
        r == char_dec(c),
{
    if c == 'a' {
        '9'
    } else {
        ((c as u8) - 1) as char
    }
}

/// The length of `s` once a maximal trailing run of the character `c` is
/// dropped.
pub open spec fn trimmed_len(s: Seq<char>, c: char) -> int
    decreases s.len(),
{
    if s.len() == 0 {
        0
    } else if s[s.len() - 1] != c {
        s.len() as int
    } else {
        trimmed_len(s.drop_last(), c)
    }
}

/// What `trimmed_len` returns: an in-range cut point with only `c` after it
/// and, unless everything was trimmed, something else just before it.
pub proof fn lemma_trimmed_len_facts(s: Seq<char>, c: char)
    ensures
        0 <= trimmed_len(s, c) <= s.len(),
        trimmed_len(s, c) > 0 ==> s[trimmed_len(s, c) - 1] != c,
        forall|j: int| trimmed_len(s, c) <= j < s.len() ==> s[j] == c,
    decreases s.len(),
{
    if s.len() > 0 && s[s.len() - 1] == c {
        lemma_trimmed_len_facts(s.drop_last(), c);
        let e = trimmed_len(s, c);
        assert forall|j: int| e <= j < s.len() implies s[j] == c by {
            if j < s.len() - 1 {
                assert(s.drop_last()[j] == s[j]);
            }
        }
        if e > 0 {
            assert(s.drop_last()[e - 1] == s[e - 1]);
        }
    }
}

/// `trimmed_len` is the unique cut point with only `c` after it and, when
/// positive, a different character just before it.
pub proof fn lemma_trimmed_len_is(s: Seq<char>, c: char, e: int)
    requires
        0 <= e <= s.len(),
        forall|j: int| e <= j < s.len() ==> s[j] == c,
        e > 0 ==> s[e - 1] != c,
    ensures
        trimmed_len(s, c) == e,
    decreases s.len(),
{
    if s.len() == 0 {
    } else if s[s.len() - 1] != c {
        assert(e == s.len());
    } else {
        assert(e < s.len());
        assert forall|j: int| e <= j < s.drop_last().len() implies s.drop_last()[j] == c by {
            assert(s.drop_last()[j] == s[j]);
        }
        if e > 0 {
            assert(s.drop_last()[e - 1] == s[e - 1]);
        }
        lemma_trimmed_len_is(s.drop_last(), c, e);
    }
}

/// The successor of a rank: increment the rightmost character that can
/// absorb the carry and truncate everything to its right; when every
/// character is the maximal `'z'`, append `'1'` instead.
pub open spec fn rank_next(s: Seq<char>) -> Seq<char> {
    let e = trimmed_len(s, 'z');
    if e == 0 {
        s.push('1')
    } else {
        s.take(e - 1).push(char_inc(s[e - 1]))
    }
}

/// The predecessor of a rank: decrement the last character unless it is
/// `'1'`; otherwise cut just after the rightmost non-`'0'` among the other
/// characters, or, when there is none, prepend `'0'`.
pub open spec fn rank_prev(s: Seq<char>) -> Seq<char>
    recommends
        valid_rank(s),
{
    if s.len() > 0 && s[s.len() - 1] != '1' {
        s.take(s.len() - 1).push(char_dec(s[s.len() - 1]))
    } else {
        let e = trimmed_len(s.take(s.len() - 1), '0');
        if e == 0 {
            seq!['0'] + s
        } else {
            s.take(e)
        }
    }
}

/// The successor of a valid rank is a valid rank and sorts strictly after
/// it; its length is unchanged exactly when the rank does not end in `'z'`.
pub proof fn lemma_rank_next_properties(s: Seq<char>)
    requires
        valid_rank(s),
    ensures
        valid_rank(rank_next(s)),
        lex_lt(s, rank_next(s)),
        rank_next(s).len() == s.len() <==> s[s.len() - 1] != 'z',
{
    lemma_trimmed_len_facts(s, 'z');
    let e = trimmed_len(s, 'z');
    let r = rank_next(s);
    if e == 0 {
        assert(valid_rank(r));
        crate::order::lemma_lex_prefix(s, r);
        assert(s[s.len() - 1] == 'z');
    } else {
        let c = s[e - 1];
        lemma_char_inc(c);
        assert(forall|j: int| 0 <= j < e - 1 ==> r[j] == s[j]);
        assert(r[e - 1] == char_inc(c));
        assert(valid_rank(r));
        crate::order::lemma_lex_first_diff(s, r, e - 1);
    }
}

/// The predecessor of a valid rank is a valid rank and sorts strictly
/// before it; its length is unchanged exactly when the rank does not end
/// in `'1'`.
pub proof fn lemma_rank_prev_properties(s: Seq<char>)
    requires
        valid_rank(s),
    ensures
        valid_rank(rank_prev(s)),
        lex_lt(rank_prev(s), s),
        rank_prev(s).len() == s.len() <==> s[s.len() - 1] != '1',
{
    let n = s.len() as int;
    let last = s[n - 1];
    let r = rank_prev(s);
    if last != '1' {
        lemma_char_dec(last);
        assert(forall|j: int| 0 <= j < n - 1 ==> r[j] == s[j]);
        assert(r[n - 1] == char_dec(last));
        assert(valid_rank(r));
        crate::order::lemma_lex_first_diff(r, s, n - 1);
    } else {
        let p = s.take(n - 1);
        lemma_trimmed_len_facts(p, '0');
        let e = trimmed_len(p, '0');
        if e == 0 {
            assert(r == seq!['0'] + s);
            assert(r.len() == n + 1);
            assert(forall|j: int| 0 <= j < n - 1 ==> p[j] == '0');
            assert forall|j: int| 0 <= j < n - 1 implies r[j] == s[j] by {
                if j > 0 {
                    assert(r[j] == s[j - 1]);
                    assert(p[j - 1] == '0');
                }
                assert(p[j] == '0');
            }
            assert(r[n] == s[n - 1]);
            assert(valid_rank(r));
            assert(r[n - 1] == '0') by {
                if n - 1 > 0 {
                    assert(r[n - 1] == s[n - 2]);
                    assert(p[n - 2] == '0');
                }
            }
            crate::order::lemma_lex_first_diff(r, s, n - 1);
        } else {
            assert(r == s.take(e));
            assert(r[e - 1] == p[e - 1]);
            assert(valid_rank(r));
            crate::order::lemma_lex_prefix(r, s);
        }
    }
}

/// Where the successor keeps the rank's length (the rank does not end in
/// `'z'`), the predecessor undoes it exactly.
pub proof fn lemma_prev_of_next(s: Seq<char>)
    requires
        valid_rank(s),
        s[s.len() - 1] != 'z',
    ensures
        rank_next(s).len() == s.len(),
        rank_prev(rank_next(s)) == s,
{
    let n = s.len() as int;
    let last = s[n - 1];
    lemma_trimmed_len_is(s, 'z', n);
    lemma_char_inc(last);
    let r1 = rank_next(s);
    assert(r1 == s.take(n - 1).push(char_inc(last)));
    lemma_rank_next_properties(s);
    assert(r1[n - 1] == char_inc(last));
    assert(char_inc(last) != '1') by {
        if last != '9' && char_inc(last) as int == '1' as int {
            assert(last as int == '0' as int);
        }
    }
    let r2 = rank_prev(r1);
    assert(r2 == r1.take(n - 1).push(char_dec(char_inc(last))));
    assert(r1.take(n - 1) =~= s.take(n - 1));
    assert(r2 =~= s);
}

/// Where the predecessor keeps the rank's length (the rank does not end in
/// `'1'`), the successor undoes it exactly.
pub proof fn lemma_next_of_prev(s: Seq<char>)
    requires
        valid_rank(s),
        s[s.len() - 1] != '1',
    ensures
        rank_prev(s).len() == s.len(),
        rank_next(rank_prev(s)) == s,
{
    let n = s.len() as int;
    let last = s[n - 1];
    lemma_char_dec(last);
    let r1 = rank_prev(s);
    assert(r1 == s.take(n - 1).push(char_dec(last)));
    lemma_rank_prev_properties(s);
    assert(r1[n - 1] == char_dec(last));
    lemma_trimmed_len_is(r1, 'z', n);
    let r2 = rank_next(r1);
    assert(r2 == r1.take(n - 1).push(char_inc(char_dec(last))));
    assert(r1.take(n - 1) =~= s.take(n - 1));
    assert(r2 =~= s);
}

/// `k` copies of the character `'0'`.
pub open spec fn zeros(k: nat) -> Seq<char> {
    Seq::new(k, |i: int| '0')
}

/// The suffix `"0" * k + "1"` that the midpoint search appends: `k` zeros
/// followed by a single `'1'`.
pub open spec fn pad_suffix(k: nat) -> Seq<char> {
    zeros(k).push('1')
}

/// The first position at or after `i` holding a character other than `'0'`,
/// or `t.len()` when there is none.
pub open spec fn first_nonzero_from(t: Seq<char>, i: int) -> int
    decreases t.len() - i,
{
    if i >= t.len() {
        t.len() as int
    } else if t[i] != '0' {
        i
    } else {
        first_nonzero_from(t, i + 1)
    }
}

/// What `first_nonzero_from` returns: a position no earlier than `i` with
/// only `'0'` before it (from `i` on) and, if in range, a non-`'0'` at it.
pub proof fn lemma_first_nonzero_from_facts(t: Seq<char>, i: int)
    requires
        0 <= i <= t.len(),
    ensures
        i <= first_nonzero_from(t, i) <= t.len(),
        forall|m: int| i <= m < first_nonzero_from(t, i) ==> t[m] == '0',
        first_nonzero_from(t, i) < t.len() ==> t[first_nonzero_from(t, i)] != '0',
    decreases t.len() - i,
{
    if i < t.len() && t[i] == '0' {
        lemma_first_nonzero_from_facts(t, i + 1);
    }
}

/// The number of zeros the midpoint search settles on when it must pad:
/// the least `k` with `pad_suffix(k)` sorting strictly before `t`.
pub open spec fn mid_pad_count(t: Seq<char>) -> int
    recommends
        t.len() > 0,
        t[t.len() - 1] != '0',
{
    let j = first_nonzero_from(t, 0);
    if j < t.len() && ((t[j] as int) > ('1' as int) || j + 1 < t.len()) {
        j
    } else {
        j + 1
    }
}

/// `pad_suffix(m)` sorts strictly before `t` exactly from `mid_pad_count(t)`
/// on: the padded suffixes shrink as `m` grows, and `mid_pad_count` is the
/// first one small enough.
pub proof fn lemma_pad_lt(t: Seq<char>, m: int)
    requires
        t.len() > 0,
        forall|i: int| 0 <= i < t.len() ==> is_rank_char(#[trigger] t[i]),
        t[t.len() - 1] != '0',
        m >= 0,
    ensures
        lex_lt(pad_suffix(m as nat), t) <==> m >= mid_pad_count(t),
{
    lemma_first_nonzero_from_facts(t, 0);
    let j = first_nonzero_from(t, 0);
    assert(j < t.len()) by {
        if j == t.len() {
            assert(t[t.len() - 1] == '0');
        }
    }
    let pad = pad_suffix(m as nat);
    assert(pad.len() == m + 1);
    assert(forall|i: int| 0 <= i < m ==> pad[i] == '0');
    assert(pad[m as int] == '1');
    if m < j {
        crate::order::lemma_lex_first_diff(pad, t, m);
    } else if m == j {
        if (t[j] as int) > ('1' as int) {
            crate::order::lemma_lex_first_diff(pad, t, j);
        } else {
            assert(t[j] == '1');
            if j + 1 < t.len() {
                crate::order::lemma_lex_prefix(pad, t);
            } else {
                assert(t =~= pad);
                crate::order::lemma_lex_irreflexive(t);
            }
        }
    } else {
        assert(pad[j] == '0');
        assert((pad[j] as int) < (t[j] as int));
        crate::order::lemma_lex_first_diff(pad, t, j);
    }
}

/// Where neither the successor of `lo` nor `lo + "1"` falls below `hi`,
/// `lo` must be a proper prefix of `hi`.
pub proof fn lemma_midpoint_prefix(lo: Seq<char>, hi: Seq<char>)
    requires
        lex_lt(lo, hi),
        !lex_lt(lo.push('1'), hi),
    ensures
        lo.len() < hi.len(),
        forall|j: int| 0 <= j < lo.len() ==> lo[j] == hi[j],
{
    crate::order::lemma_lex_lt_inversion(lo, hi);
    if exists|i: int| crate::order::lex_diff_at(lo, hi, i) {
        let i = choose|i: int| crate::order::lex_diff_at(lo, hi, i);
        assert(lo.push('1')[i] == lo[i]);
        assert(forall|j: int| 0 <= j < i ==> lo.push('1')[j] == hi[j]);
        crate::order::lemma_lex_first_diff(lo.push('1'), hi, i);
        assert(false);
    }
}

/// The midpoint of two valid ranks `lo` sorting before `hi`: the successor
/// of `lo` if it falls below `hi`; otherwise `lo + "1"`, padded with as few
/// zeros before the `'1'` as needed to fall below `hi`.
pub open spec fn rank_between(lo: Seq<char>, hi: Seq<char>) -> Seq<char>
    recommends
        valid_rank(lo),
        valid_rank(hi),
        lex_lt(lo, hi),
{
    if lex_lt(rank_next(lo), hi) {
        rank_next(lo)
    } else if lex_lt(lo.push('1'), hi) {
        lo.push('1')
    } else {
        lo + pad_suffix(mid_pad_count(hi.skip(lo.len() as int)) as nat)
    }
}

/// The midpoint of two valid ranks with `lo` sorting before `hi` is a valid
/// rank sorting strictly between the two.
pub proof fn lemma_rank_between_properties(lo: Seq<char>, hi: Seq<char>)
    requires
        valid_rank(lo),
        valid_rank(hi),
        lex_lt(lo, hi),
    ensures
        valid_rank(rank_between(lo, hi)),
        lex_lt(lo, rank_between(lo, hi)),
        lex_lt(rank_between(lo, hi), hi),
{
    if lex_lt(rank_next(lo), hi) {
        lemma_rank_next_properties(lo);
    } else if lex_lt(lo.push('1'), hi) {
        crate::order::lemma_lex_prefix(lo, lo.push('1'));
        assert(valid_rank(lo.push('1')));
    } else {
        lemma_midpoint_prefix(lo, hi);
        let t = hi.skip(lo.len() as int);
        assert(hi =~= lo + t);
        assert(t.len() > 0);
        assert(forall|i: int| 0 <= i < t.len() ==> is_rank_char(#[trigger] t[i])) by {
            assert(forall|i: int| 0 <= i < t.len() ==> t[i] == hi[lo.len() + i]);
        }
        assert(t[t.len() - 1] == hi[hi.len() - 1]);
        let k = mid_pad_count(t);
        lemma_pad_lt(t, 0);
        assert(lo.push('1') =~= lo + pad_suffix(0));
        crate::order::lemma_lex_append_cancel(lo, pad_suffix(0), t);
        assert(k >= 1);
        lemma_pad_lt(t, k);
        crate::order::lemma_lex_append_cancel(lo, pad_suffix(k as nat), t);
        let r = lo + pad_suffix(k as nat);
        assert(lex_lt(r, hi));
        crate::order::lemma_lex_prefix(lo, r);
        assert(r[r.len() - 1] == '1');
        assert(valid_rank(r));
    }
}

/// The midpoint of `a` and `b`: nothing when they are equal, otherwise the
/// rank between the smaller and the larger of the two.
pub open spec fn spec_between(a: Seq<char>, b: Seq<char>) -> Option<Seq<char>> {
    if a == b {
        None
    } else {
        Some(rank_between(crate::order::lex_min(a, b), crate::order::lex_max(a, b)))
    }
}

/// Midpoint law: two distinct valid ranks always have a midpoint; it is a
/// valid rank sorting strictly between them, and it does not depend on the
/// order of the two arguments.
pub proof fn lemma_between_properties(a: Seq<char>, b: Seq<char>)
    requires
        valid_rank(a),
        valid_rank(b),
        a != b,
    ensures
        spec_between(a, b) matches Some(m) && valid_rank(m) && lex_lt(
            crate::order::lex_min(a, b),
            m,
        ) && lex_lt(m, crate::order::lex_max(a, b)),
        spec_between(a, b) == spec_between(b, a),
{
    lemma_lex_total(a, b);
    lemma_lex_asymmetric(a, b);
    assert(crate::order::lex_min(a, b) == crate::order::lex_min(b, a));
    assert(crate::order::lex_max(a, b) == crate::order::lex_max(b, a));
    lemma_rank_between_properties(crate::order::lex_min(a, b), crate::order::lex_max(a, b));
}

/// Midpoint identity law: a rank has no midpoint with itself.
pub proof fn lemma_between_identity(a: Seq<char>)
    ensures
        spec_between(a, a) is None,
{
}

/// The diagnostic message for a string that fails rank validation.
pub open spec fn rank_message(s: Seq<char>) -> Seq<char> {
    "Lexorank value must only include 0-9 and a-z and must not end with 0. Found: "@ + s
}

/// A rank value: an immutable, validated string over `0-9a-z` that does not
/// end in `'0'`, ordered lexicographically.
#[derive(Debug)]
pub struct LexValue {
    value: String,
}

impl Clone for LexValue {
    /// Clones carry the rank string over exactly.
    fn clone(&self) -> (r: Self)
        ensures
            r@ == self@,
    {
        proof {
            use_type_invariant(self);
        }
        LexValue { value: self.value.clone() }
    }
}

impl View for LexValue {
    type V = Seq<char>;

    closed spec fn view(&self) -> Seq<char> {
        self.value@
    }
}

impl LexValue {
    /// Every rank value in existence satisfies the format invariant.
    #[verifier::type_invariant]
    spec fn well_formed(self) -> bool {
        valid_rank(self.value@)
    }

    /// Validated constructor: succeeds exactly when `value` is a non-empty
    /// string over `0-9a-z` that does not end in `'0'`.
    pub fn new(value: &str) -> (r: ParseResult<Self>)
        ensures
            r is Ok <==> valid_rank(value@),
            valid_rank(value@) ==> (r matches Ok(v) && v@ == value@),
            !valid_rank(value@) ==> (r matches Err(e) && e.0@ == rank_message(value@)),
    {
        let n = value.unicode_len();
        let valid = n > 0 && rank_chars_ok(value) && value.get_char(n - 1) != '0';
        if valid {
            Ok(LexValue { value: value.to_owned() })
        } else {
            let msg = String::from_str(
                "Lexorank value must only include 0-9 and a-z and must not end with 0. Found: ",
            ).concat(value);
            Err(ParseError(msg))
        }
    }

    /// The successor: a valid rank sorting strictly after this one.
    /// Increments the rightmost character that is not `'z'` and truncates
    /// everything to its right; appends `'1'` when every character is `'z'`.
    #[verifier::loop_isolation(false)]
    pub fn next(&self) -> (r: Self)
        ensures
            r@ == rank_next(self@),
            valid_rank(r@),
            lex_lt(self@, r@),
    {
        proof {
            use_type_invariant(self);
            lemma_rank_next_properties(self@);
        }
        let n = self.value.as_str().unicode_len();
        let mut i: usize = n;
        while i > 0
            invariant
                0 <= i <= n,
                forall|j: int| i <= j < n ==> self@[j] == 'z',
            decreases i,
        {
            let c = self.value.as_str().get_char(i - 1);
            if c != 'z' {
                proof {
                    lemma_trimmed_len_is(self@, 'z', i as int);
                }
                let prefix = self.value.as_str().substring_char(0, i - 1);
                let mut out = String::from_str(prefix);
                crate::error::string_push(&mut out, char_successor(c));
                proof {
                    assert(out@ =~= rank_next(self@));
                }
                return LexValue { value: out };
            }
            i -= 1;
        }
        proof {
            lemma_trimmed_len_is(self@, 'z', 0);
        }
        let mut out = self.value.clone();
        crate::error::string_push(&mut out, '1');
        proof {
            assert(out@ =~= rank_next(self@));
        }
        LexValue { value: out }
    }

    /// The predecessor: a valid rank sorting strictly before this one.
    /// Decrements the last character unless it is `'1'`; otherwise cuts just
    /// after the rightmost non-`'0'` among the other characters, or prepends
    /// `'0'` when there is none.
    #[verifier::loop_isolation(false)]
    pub fn prev(&self) -> (r: Self)
        ensures
            r@ == rank_prev(self@),
            valid_rank(r@),
            lex_lt(r@, self@),
    {
        proof {
            use_type_invariant(self);
            lemma_rank_prev_properties(self@);
        }
        let n = self.value.as_str().unicode_len();
        let last = self.value.as_str().get_char(n - 1);
        if last != '1' {
            let prefix = self.value.as_str().substring_char(0, n - 1);
            let mut out = String::from_str(prefix);
            crate::error::string_push(&mut out, char_predecessor(last));
            proof {
                assert(out@ =~= rank_prev(self@));
            }
            return LexValue { value: out };
        }
        let ghost p = self@.take(n - 1);
        let mut i: usize = n - 1;
        while i > 0
            invariant
                0 <= i <= n - 1,
                forall|j: int| i <= j < n - 1 ==> self@[j] == '0',
            decreases i,
        {
            let c = self.value.as_str().get_char(i - 1);
            if c != '0' {
                proof {
                    assert(forall|j: int| i <= j < p.len() ==> p[j] == '0');
                    assert(p[i - 1] == self@[i - 1]);
                    lemma_trimmed_len_is(p, '0', i as int);
                }
                let out = String::from_str(self.value.as_str().substring_char(0, i));
                proof {
                    assert(out@ =~= rank_prev(self@));
                }
                return LexValue { value: out };
            }
            i -= 1;
        }
        proof {
            assert(forall|j: int| 0 <= j < p.len() ==> p[j] == '0');
            lemma_trimmed_len_is(p, '0', 0);
        }
        let out = String::from_str("0").concat(self.value.as_str());
        proof {
            reveal_strlit("0");
            assert(out@ =~= rank_prev(self@));
        }
        LexValue { value: out }
    }

    /// A rank sorting strictly between this one and `rank2`, or nothing
    /// when the two are equal. The result does not depend on which operand
    /// is smaller.
    #[verifier::loop_isolation(false)]
    pub fn between(&self, rank2: &Self) -> (r: Option<Self>)
        ensures
            r is Some <==> self@ != rank2@,
            r matches Some(m) ==> {
                &&& m@ == rank_between(
                    crate::order::lex_min(self@, rank2@),
                    crate::order::lex_max(self@, rank2@),
                )
                &&& valid_rank(m@)
                &&& lex_lt(crate::order::lex_min(self@, rank2@), m@)
                &&& lex_lt(m@, crate::order::lex_max(self@, rank2@))
            },
    {
        proof {
            use_type_invariant(self);
            use_type_invariant(rank2);
            lemma_lex_total(self@, rank2@);
            lemma_lex_asymmetric(self@, rank2@);
            reveal_strlit("1");
            reveal_strlit("0");
        }
        let cmp = str_compare(self.value.as_str(), rank2.value.as_str());
        if matches!(cmp, core::cmp::Ordering::Equal) {
            return None;
        }
        let (lesser, greater) = if matches!(cmp, core::cmp::Ordering::Less) {
            (self, rank2)
        } else {
            (rank2, self)
        };
        let ghost lo = lesser@;
        let ghost hi = greater@;
        proof {
            assert(lex_lt(lo, hi));
            assert(lo == crate::order::lex_min(self@, rank2@));
            assert(hi == crate::order::lex_max(self@, rank2@));
            lemma_rank_between_properties(lo, hi);
        }
        let incremented = lesser.next();
        if crate::order::str_lt(incremented.value.as_str(), greater.value.as_str()) {
            return Some(incremented);
        }
        let plus1 = lesser.append("1");
        proof {
            assert(plus1@ =~= lo.push('1'));
        }
        if crate::order::str_lt(plus1.value.as_str(), greater.value.as_str()) {
            return Some(plus1);
        }
        proof {
            lemma_midpoint_prefix(lo, hi);
        }
        let ghost t = hi.skip(lo.len() as int);
        let ghost kk = mid_pad_count(t);
        proof {
            assert(hi =~= lo + t);
            assert(forall|i: int| 0 <= i < t.len() ==> is_rank_char(#[trigger] t[i])) by {
                assert(forall|i: int| 0 <= i < t.len() ==> t[i] == hi[lo.len() + i]);
            }
            assert(t[t.len() - 1] == hi[hi.len() - 1]);
            lemma_pad_lt(t, 0);
            assert(lo.push('1') =~= lo + pad_suffix(0));
            crate::order::lemma_lex_append_cancel(lo, pad_suffix(0), t);
            assert(kk >= 1);
            lemma_pad_lt(t, 1);
            crate::order::lemma_lex_append_cancel(lo, pad_suffix(1), t);
        }
        let mut pre = String::from_str("0");
        let mut cand = padded_candidate(lesser, &pre);
        proof {
            assert(cand@ =~= lo + pad_suffix(1));
        }
        let ghost mut k: int = 1;
        let mut lower = crate::order::str_lt(cand.as_str(), greater.value.as_str());
        while !lower
            invariant
                1 <= k <= kk,
                pre@ == zeros(k as nat),
                cand@ == lo + pad_suffix(k as nat),
                lower == lex_lt(cand@, hi),
                !lower ==> k < kk,
            decreases kk - k,
        {
            crate::error::string_push(&mut pre, '0');
            proof {
                k = k + 1;
                assert(pre@ =~= zeros(k as nat));
            }
            cand = padded_candidate(lesser, &pre);
            proof {
                assert(cand@ =~= lo + pad_suffix(k as nat));
            }
            lower = crate::order::str_lt(cand.as_str(), greater.value.as_str());
            proof {
                lemma_pad_lt(t, k);
                crate::order::lemma_lex_append_cancel(lo, pad_suffix(k as nat), t);
            }
        }
        proof {
            lemma_pad_lt(t, k);
            crate::order::lemma_lex_append_cancel(lo, pad_suffix(k as nat), t);
            assert(k == kk);
            assert(cand@ == rank_between(lo, hi));
        }
        Some(LexValue { value: cand })
    }

    /// This rank's string with `suffix` appended; the suffix must keep the
    /// result a valid rank.
    fn append(&self, suffix: &str) -> (r: Self)
        requires
            valid_rank(self@ + suffix@),
        ensures
            r@ == self@ + suffix@,
    {
        LexValue { value: self.value.clone().concat(suffix) }
    }

    /// The canonical string this rank wraps.
    pub fn value(&self) -> (r: &str)
        ensures
            r@ == self@,
            valid_rank(r@),
    {
        proof {
            use_type_invariant(self);
        }
        self.value.as_str()
    }
}

/// The candidate string `base + pre + "1"` that the midpoint search tests.
fn padded_candidate(base: &LexValue, pre: &String) -> (r: String)
    ensures
        r@ == base@ + pre@ + "1"@,
{
    base.value.clone().concat(pre.as_str()).concat("1")
}

/// Checks that every character of `value` belongs to the rank alphabet.
fn rank_chars_ok(value: &str) -> (r: bool)
    ensures
        r == forall|i: int| 0 <= i < value@.len() ==> is_rank_char(#[trigger] value@[i]),
{
    let n = value.unicode_len();
    let mut i: usize = 0;
    while i < n
        invariant
            0 <= i <= n,
            n == value@.len(),
            forall|j: int| 0 <= j < i ==> is_rank_char(#[trigger] value@[j]),
        decreases n - i,
    {
        let c = value.get_char(i);
        let u = c as u32;
        if !((48 <= u && u <= 57) || (97 <= u && u <= 122)) {
            assert(!is_rank_char(value@[i as int]));
            return false;
        }
        i += 1;
    }
    true
}

impl PartialEq for LexValue {
    fn eq(&self, other: &Self) -> (r: bool) {
        self.value == other.value
    }
}

impl vstd::std_specs::cmp::PartialEqSpecImpl for LexValue {
    open spec fn obeys_eq_spec() -> bool {
        true
    }

    open spec fn eq_spec(&self, other: &Self) -> bool {
        self@ == other@
    }
}

impl<'a> TryFrom<&'a str> for LexValue {
    type Error = ParseError;

    /// Validates the string, as `new` does.
    fn try_from(value: &'a str) -> (r: Result<Self, ParseError>) {
        LexValue::new(value)
    }
}

impl<'a> vstd::std_specs::convert::TryFromSpecImpl<&'a str> for LexValue {
    open spec fn obeys_try_from_spec() -> bool {
        false
    }

    open spec fn try_from_spec(v: &'a str) -> Result<Self, ParseError> {
        vstd::pervasive::arbitrary()
    }
}

impl PartialOrd for LexValue {
    fn partial_cmp(&self, other: &Self) -> (r: Option<core::cmp::Ordering>) {
        proof {
            lemma_lex_asymmetric(self@, other@);
            lemma_lex_total(self@, other@);
        }
        Some(str_compare(self.value.as_str(), other.value.as_str()))
    }
}

impl vstd::std_specs::cmp::PartialOrdSpecImpl for LexValue {
    open spec fn obeys_partial_cmp_spec() -> bool {
        true
    }

    open spec fn partial_cmp_spec(&self, other: &Self) -> Option<core::cmp::Ordering> {
        if lex_lt(self@, other@) {
            Some(core::cmp::Ordering::Less)
        } else if lex_lt(other@, self@) {
            Some(core::cmp::Ordering::Greater)
        } else {
            Some(core::cmp::Ordering::Equal)
        }
    }
}

} // verus!
