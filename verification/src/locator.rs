//! Dense-rational locators: totally ordered identifiers that admit a
//! `between` operation for any pair `a < b`, so that excerpts can be
//! inserted at an arbitrary position without renumbering.
//!
//! A locator is a non-empty sequence of `u64` digits compared
//! lexicographically. The sentinels are `[0]` (minimum) and `[u64::MAX]`
//! (maximum). `between` pads its left argument with `0` digits and its
//! right argument with `u64::MAX` digits, copies the common prefix, and
//! stops at the first digit where a strictly intermediate value exists.

use vstd::prelude::*;

verus! {

/// Lexicographic order on digit sequences: a proper prefix sorts first.
pub open spec fn lex_lt(a: Seq<u64>, b: Seq<u64>) -> bool
    decreases a.len(),
{
    if b.len() == 0 {
        false
    } else if a.len() == 0 {
        true
    } else if a[0] < b[0] {
        true
    } else if a[0] > b[0] {
        false
    } else {
        lex_lt(a.drop_first(), b.drop_first())
    }
}

pub open spec fn lex_le(a: Seq<u64>, b: Seq<u64>) -> bool {
    lex_lt(a, b) || a =~= b
}

/// The digit that `between` reads at position `i` of its left argument.
pub open spec fn pad_low(a: Seq<u64>, i: int) -> u64 {
    if 0 <= i < a.len() {
        a[i]
    } else {
        0u64
    }
}

/// The digit that `between` reads at position `i` of its right argument.
pub open spec fn pad_high(b: Seq<u64>, i: int) -> u64 {
    if 0 <= i < b.len() {
        b[i]
    } else {
        u64::MAX
    }
}

/// Well-formed locators never end in a zero digit, except the minimum
/// sentinel itself; this keeps `between` strictly inside its bounds.
pub open spec fn wf_digits(s: Seq<u64>) -> bool {
    s.len() >= 1 && (s =~= seq![0u64] || s[s.len() - 1] != 0)
}

pub proof fn lemma_lex_irrefl(a: Seq<u64>)
    ensures
        !lex_lt(a, a),
    decreases a.len(),
{
    if a.len() > 0 {
        lemma_lex_irrefl(a.drop_first());
    }
}

pub proof fn lemma_lex_trichotomy(a: Seq<u64>, b: Seq<u64>)
    ensures
        lex_lt(a, b) || lex_lt(b, a) || a =~= b,
    decreases a.len(),
{
    if a.len() > 0 && b.len() > 0 && a[0] == b[0] {
        lemma_lex_trichotomy(a.drop_first(), b.drop_first());
        if a.drop_first() =~= b.drop_first() {
            assert(a =~= seq![a[0]] + a.drop_first());
            assert(b =~= seq![b[0]] + b.drop_first());
        }
    }
}

pub proof fn lemma_lex_trans(a: Seq<u64>, b: Seq<u64>, c: Seq<u64>)
    requires
        lex_lt(a, b),
        lex_lt(b, c),
    ensures
        lex_lt(a, c),
    decreases a.len(),
{
    if a.len() > 0 && b.len() > 0 && c.len() > 0 && a[0] == b[0] && b[0] == c[0] {
        lemma_lex_trans(a.drop_first(), b.drop_first(), c.drop_first());
    }
}

pub proof fn lemma_lex_asymmetric(a: Seq<u64>, b: Seq<u64>)
    requires
        lex_lt(a, b),
    ensures
        !lex_lt(b, a),
        !(a =~= b),
{
    if lex_lt(b, a) {
        lemma_lex_trans(a, b, a);
        lemma_lex_irrefl(a);
    }
    if a =~= b {
        lemma_lex_irrefl(a);
    }
}

/// A sequence that matches `a`'s padded digits before its last position
/// and exceeds them at its last position sorts strictly after `a`.
proof fn lemma_gt_padded(a: Seq<u64>, r: Seq<u64>)
    requires
        r.len() >= 1,
        forall|j: int| 0 <= j < r.len() - 1 ==> r[j] == pad_low(a, j),
        r[r.len() - 1] > pad_low(a, r.len() - 1),
    ensures
        lex_lt(a, r),
    decreases r.len(),
{
    if a.len() == 0 {
        // the empty sequence sorts before any non-empty one
    } else if r.len() == 1 {
        assert(pad_low(a, 0) == a[0]);
    } else {
        assert(r[0] == pad_low(a, 0));
        let a2 = a.drop_first();
        let r2 = r.drop_first();
        assert forall|j: int| 0 <= j < r2.len() - 1 implies r2[j] == pad_low(a2, j) by {
            assert(r2[j] == r[j + 1]);
            assert(pad_low(a, j + 1) == pad_low(a2, j));
        }
        assert(r2[r2.len() - 1] == r[r.len() - 1]);
        assert(pad_low(a, r.len() - 1) == pad_low(a2, r2.len() - 1));
        lemma_gt_padded(a2, r2);
    }
}

/// A sequence that matches `a`'s padded digits before its last position,
/// in a region where `b`'s padded digits never exceed `a`'s by more than
/// one, and that stays strictly below `b`'s padded digit at its last
/// position, sorts strictly before `b`.
proof fn lemma_lt_padded(a: Seq<u64>, b: Seq<u64>, r: Seq<u64>)
    requires
        r.len() >= 1,
        forall|j: int| 0 <= j < r.len() - 1 ==> r[j] == pad_low(a, j),
        forall|j: int| 0 <= j < r.len() - 1 ==> pad_high(b, j) <= pad_low(a, j) + 1,
        r[r.len() - 1] < pad_high(b, r.len() - 1),
        lex_lt(a, b),
        wf_digits(b),
        !(a.len() == 0 && b =~= seq![0u64]),
    ensures
        lex_lt(r, b),
    decreases r.len(),
{
    assert(b.len() >= 1);
    if r.len() == 1 {
        assert(r[0] < pad_high(b, 0));
        assert(pad_high(b, 0) == b[0]);
    } else {
        assert(r[0] == pad_low(a, 0));
        assert(pad_high(b, 0) == b[0]);
        assert(b[0] <= pad_low(a, 0) + 1);
        if r[0] < b[0] {
            // first digit already decides the comparison
        } else if a.len() == 0 {
            // pad_low is zero everywhere, so b starts with a zero digit
            assert(r[0] == 0);
            assert(b[0] == 0);
            let b2 = b.drop_first();
            let r2 = r.drop_first();
            assert(b2.len() >= 1) by {
                if b2.len() == 0 {
                    assert(b =~= seq![0u64]);
                }
            }
            assert(wf_digits(b2)) by {
                assert(b.len() >= 2);
                assert(!(b =~= seq![0u64]));
                assert(b[b.len() - 1] != 0);
                assert(b2[b2.len() - 1] == b[b.len() - 1]);
                if !(b2 =~= seq![0u64]) {
                }
            }
            assert(!(b2 =~= seq![0u64])) by {
                if b2 =~= seq![0u64] {
                    assert(b2[0] == seq![0u64][0]);
                    assert(b2[0] == b[1]);
                    assert(b[1] == 0);
                    assert(b.len() == 2);
                    assert(b[b.len() - 1] != 0);
                }
            }
            assert forall|j: int| 0 <= j < r2.len() - 1 implies r2[j] == pad_low(a, j)
                && pad_high(b2, j) <= pad_low(a, j) + 1 by {
                assert(r2[j] == r[j + 1]);
                assert(pad_low(a, j + 1) == pad_low(a, j));
                assert(pad_high(b, j + 1) == pad_high(b2, j));
            }
            assert(r2[r2.len() - 1] == r[r.len() - 1]);
            assert(pad_high(b, r.len() - 1) == pad_high(b2, r2.len() - 1));
            assert(lex_lt(a, b2));
            lemma_lt_padded(a, b2, r2);
            assert(r[0] == b[0] && lex_lt(r.drop_first(), b.drop_first()));
        } else {
            let a0 = a[0];
            assert(pad_low(a, 0) == a0);
            assert(r[0] == a0);
            assert(b[0] >= a0) by {
                if b[0] < a0 {
                    assert(!lex_lt(a, b));
                }
            }
            if b[0] == a0 + 1 {
                assert(r[0] < b[0]);
            } else {
                assert(b[0] == a0);
                let a2 = a.drop_first();
                let b2 = b.drop_first();
                let r2 = r.drop_first();
                assert(lex_lt(a2, b2));
                assert(b2.len() >= 1) by {
                    if b2.len() == 0 {
                        assert(!lex_lt(a2, b2));
                    }
                }
                assert(wf_digits(b2)) by {
                    assert(b.len() >= 2);
                    assert(!(b =~= seq![0u64])) by {
                        assert(b.len() >= 2);
                    }
                    assert(b2[b2.len() - 1] == b[b.len() - 1]);
                }
                assert(!(a2.len() == 0 && b2 =~= seq![0u64])) by {
                    if a2.len() == 0 && b2 =~= seq![0u64] {
                        assert(b.len() == 2);
                        assert(b2[0] == seq![0u64][0]);
                        assert(b2[0] == b[1]);
                        assert(b[1] == 0);
                        assert(b[b.len() - 1] != 0) by {
                            assert(!(b =~= seq![0u64]));
                        }
                    }
                }
                assert forall|j: int| 0 <= j < r2.len() - 1 implies r2[j] == pad_low(a2, j)
                    && pad_high(b2, j) <= pad_low(a2, j) + 1 by {
                    assert(r2[j] == r[j + 1]);
                    assert(pad_low(a, j + 1) == pad_low(a2, j));
                    assert(pad_high(b, j + 1) == pad_high(b2, j));
                }
                assert(r2[r2.len() - 1] == r[r.len() - 1]);
                assert(pad_high(b, r.len() - 1) == pad_high(b2, r2.len() - 1));
                lemma_lt_padded(a2, b2, r2);
                assert(r[0] == b[0] && lex_lt(r.drop_first(), b.drop_first()));
            }
        }
    }
}

/// A stable identifier for an excerpt: a non-empty sequence of digits,
/// ordered lexicographically.
#[derive(Debug)]
pub struct Locator {
    pub digits: Vec<u64>,
}

impl View for Locator {
    type V = Seq<u64>;

    open spec fn view(&self) -> Seq<u64> {
        self.digits@
    }
}

impl Clone for Locator {
    fn clone(&self) -> (r: Locator)
        ensures
            r@ == self@,
    {
        let mut digits: Vec<u64> = Vec::new();
        let mut i: usize = 0;
        while i < self.digits.len()
            invariant
                i <= self.digits.len(),
                digits@ =~= self.digits@.take(i as int),
            decreases self.digits.len() - i,
        {
            digits.push(self.digits[i]);
            i += 1;
        }
        proof {
            assert(digits@ =~= self.digits@);
        }
        Locator { digits }
    }
}

impl PartialEq for Locator {
    fn eq(&self, other: &Locator) -> (r: bool) {
        let n = self.digits.len();
        if n != other.digits.len() {
            proof {
                assert(!(self.digits@ =~= other.digits@));
            }
            return false;
        }
        let mut i: usize = 0;
        while i < n
            invariant
                i <= n,
                n == self.digits.len(),
                n == other.digits.len(),
                forall|j: int| 0 <= j < i ==> self.digits@[j] == other.digits@[j],
            decreases n - i,
        {
            if self.digits[i] != other.digits[i] {
                proof {
                    assert(self.digits@[i as int] != other.digits@[i as int]);
                }
                return false;
            }
            i += 1;
        }
        proof {
            assert(self.digits@ =~= other.digits@);
        }
        true
    }
}

impl vstd::std_specs::cmp::PartialEqSpecImpl for Locator {
    open spec fn obeys_eq_spec() -> bool {
        true
    }

    open spec fn eq_spec(&self, other: &Locator) -> bool {
        self.digits@ =~= other.digits@
    }
}

impl Eq for Locator {

}

impl Locator {
    pub open spec fn wf(self) -> bool {
        wf_digits(self@)
    }

    /// The sentinel that sorts before every other well-formed locator.
    pub fn min() -> (r: Locator)
        ensures
            r@ =~= seq![0u64],
            r.wf(),
    {
        let mut v: Vec<u64> = Vec::new();
        v.push(0u64);
        Locator { digits: v }
    }

    /// The sentinel that sorts after every other well-formed locator.
    pub fn max() -> (r: Locator)
        ensures
            r@ =~= seq![u64::MAX],
            r.wf(),
    {
        let mut v: Vec<u64> = Vec::new();
        v.push(u64::MAX);
        Locator { digits: v }
    }

    pub open spec fn is_min(self) -> bool {
        self@ =~= seq![0u64]
    }

    pub open spec fn is_max(self) -> bool {
        self@ =~= seq![u64::MAX]
    }

    /// Strict lexicographic comparison.
    pub fn lt(&self, other: &Locator) -> (r: bool)
        ensures
            r == lex_lt(self@, other@),
    {
        let a = &self.digits;
        let b = &other.digits;
        proof {
            assert(a@.skip(0) =~= a@);
            assert(b@.skip(0) =~= b@);
        }
        let mut i: usize = 0;
        loop
            invariant
                i <= a.len(),
                i <= b.len(),
                forall|j: int| 0 <= j < i ==> a@[j] == b@[j],
                lex_lt(self@, other@) == lex_lt(a@.skip(i as int), b@.skip(i as int)),
            decreases a.len() - i,
        {
            proof {
                lemma_lex_skip_unfold(a@, b@, i as int);
            }
            if i >= a.len() {
                return i < b.len();
            }
            if i >= b.len() {
                return false;
            }
            if a[i] < b[i] {
                return true;
            }
            if a[i] > b[i] {
                return false;
            }
            i += 1;
        }
    }

    pub fn le(&self, other: &Locator) -> (r: bool)
        ensures
            r == lex_le(self@, other@),
    {
        if self.eq(other) {
            true
        } else {
            self.lt(other)
        }
    }

    /// A locator strictly between `a` and `b`, which must satisfy `a < b`.
    /// The result is well-formed and differs from both bounds, so a fresh
    /// excerpt can always be placed between two existing ones.
    pub fn between(a: &Locator, b: &Locator) -> (r: Locator)
        requires
            a.wf(),
            b.wf(),
            lex_lt(a@, b@),
        ensures
            r.wf(),
            lex_lt(a@, r@),
            lex_lt(r@, b@),
    {
        let mut digits: Vec<u64> = Vec::new();
        let ghost max_len: int = if a.digits.len() > b.digits.len() {
            a.digits.len() as int
        } else {
            b.digits.len() as int
        };
        let mut i: usize = 0;
        loop
            invariant
                a.wf(),
                b.wf(),
                lex_lt(a@, b@),
                digits.len() == i,
                forall|j: int| 0 <= j < i ==> digits@[j] == pad_low(a@, j),
                forall|j: int| 0 <= j < i ==> pad_high(b@, j) <= pad_low(a@, j) + 1,
                i <= max_len,
                max_len == if a.digits.len() > b.digits.len() {
                    a.digits.len() as int
                } else {
                    b.digits.len() as int
                },
            decreases max_len - i,
        {
            let lhs: u64 = if i < a.digits.len() {
                a.digits[i]
            } else {
                0u64
            };
            let rhs: u64 = if i < b.digits.len() {
                b.digits[i]
            } else {
                u64::MAX
            };
            let gap: u64 = if rhs >= lhs {
                rhs - lhs
            } else {
                0u64
            };
            let mid: u64 = lhs + gap / 2;
            digits.push(mid);
            if mid > lhs {
                proof {
                    let r = digits@;
                    assert(r[r.len() - 1] == mid);
                    assert(lhs == pad_low(a@, i as int));
                    assert(rhs == pad_high(b@, i as int));
                    lemma_gt_padded(a@, r);
                    assert(mid < rhs);
                    lemma_lt_padded(a@, b@, r);
                    assert(r[r.len() - 1] != 0);
                }
                return Locator { digits };
            }
            proof {
                // the loop continues only while the padded digits of the two
                // bounds are at most one apart
                assert(pad_high(b@, i as int) <= pad_low(a@, i as int) + 1) by {
                    assert(mid == lhs);
                    if rhs >= lhs + 2 {
                        assert(gap >= 2);
                        assert(mid >= lhs + 1);
                    }
                }
                // once both bounds are exhausted the gap spans the whole
                // digit range, so the loop must already have returned
                if i as int == max_len {
                    assert(i >= a.digits.len());
                    assert(i >= b.digits.len());
                    assert(lhs == 0);
                    assert(rhs == u64::MAX);
                    assert(gap == u64::MAX);
                    assert(mid > 0);
                    assert(false);
                }
            }
            i += 1;
        }
    }
}

/// Unfolds lexicographic comparison at index `i` of two sequences whose
/// first `i` digits agree.
proof fn lemma_lex_skip_unfold(a: Seq<u64>, b: Seq<u64>, i: int)
    requires
        0 <= i <= a.len(),
        0 <= i <= b.len(),
        forall|j: int| 0 <= j < i ==> a[j] == b[j],
    ensures
        i < a.len() && i < b.len() && a[i] < b[i] ==> lex_lt(a.skip(i), b.skip(i)),
        i < a.len() && i < b.len() && a[i] > b[i] ==> !lex_lt(a.skip(i), b.skip(i)),
        i < a.len() && i < b.len() && a[i] == b[i] ==> lex_lt(a.skip(i), b.skip(i)) == lex_lt(
            a.skip(i + 1),
            b.skip(i + 1),
        ),
        i == a.len() ==> lex_lt(a.skip(i), b.skip(i)) == (i < b.len()),
        i == b.len() && i < a.len() ==> !lex_lt(a.skip(i), b.skip(i)),
{
    let sa = a.skip(i);
    let sb = b.skip(i);
    if i < a.len() && i < b.len() {
        assert(sa[0] == a[i]);
        assert(sb[0] == b[i]);
        if a[i] == b[i] {
            assert(sa.drop_first() =~= a.skip(i + 1));
            assert(sb.drop_first() =~= b.skip(i + 1));
        }
    } else if i == a.len() {
        assert(sa.len() == 0);
        assert(sb.len() == b.len() - i);
    } else {
        assert(sb.len() == 0);
    }
}

} // verus!
