//! Sorted set data structure: members ordered by score.
//!
//! A score is an IEEE-754 double given by its bit pattern (`f64::to_bits`).
//! Members are kept in one sequence ordered by `score_key`, an unsigned key
//! that orders the bit patterns as the doubles themselves order (with
//! `-0.0` and `0.0` equal); members with equal keys stay in the order in
//! which they were added.

use vstd::prelude::*;
use crate::collections::{range_in_bounds, range_of, range_positions, value_views};
use crate::types::{Value, ValueView};
use vstd::arithmetic::power2::pow2;

verus! {

/// The sign bit of a double.
pub const SIGN_BIT: u64 = 0x8000_0000_0000_0000;

/// The exponent bits of a double.
pub const EXPONENT_BITS: u64 = 0x7FF0_0000_0000_0000;

/// The fraction bits of a double.
pub const FRACTION_BITS: u64 = 0x000F_FFFF_FFFF_FFFF;

/// The order key of a score: `-0.0` is taken as `0.0`; negative doubles
/// have their bits inverted and non-negative ones get the sign bit set, so
/// that keys compare as the doubles do.
pub open spec fn score_key(bits: u64) -> u64 {
    let b = if bits == SIGN_BIT { 0u64 } else { bits };
    if b & SIGN_BIT != 0 {
        !b
    } else {
        b | SIGN_BIT
    }
}

/// Whether a score is a NaN.
pub open spec fn score_is_nan(bits: u64) -> bool {
    bits & EXPONENT_BITS == EXPONENT_BITS && bits & FRACTION_BITS != 0
}

/// One more than the largest fraction field of a double (2^52).
pub open spec fn fraction_span() -> int {
    0x10_0000_0000_0000
}

/// The magnitude of the double with bit pattern `bits`, in units of the
/// smallest positive subnormal (2^-1074), as IEEE 754 defines it: with
/// exponent field `e` and fraction field `f`, `f` when `e` is 0 and
/// `(f + 2^52) * 2^(e - 1)` otherwise (the infinities, `e` = 2047 and
/// `f` = 0, come out above every finite double).
pub open spec fn double_magnitude(bits: u64) -> int {
    let e = (bits as int / fraction_span()) % 2048;
    let f = bits as int % fraction_span();
    if e == 0 {
        f
    } else {
        (f + fraction_span()) * pow2((e - 1) as nat)
    }
}

/// The value of the double with bit pattern `bits`, in units of 2^-1074:
/// its magnitude, negated when the sign bit is set.
pub open spec fn double_value(bits: u64) -> int {
    if bits >= SIGN_BIT {
        -double_magnitude(bits)
    } else {
        double_magnitude(bits)
    }
}

/// The magnitude of a double depends on its bits without the sign.
proof fn lemma_magnitude_unsigned(bits: u64)
    ensures
        double_magnitude(bits) == double_magnitude((bits as int % 0x8000_0000_0000_0000) as u64),
{
    let low = bits as int % 0x8000_0000_0000_0000;
    assert(bits as int == (bits as int / 0x8000_0000_0000_0000) * 0x8000_0000_0000_0000 + low);
    assert(bits as int / 0x8000_0000_0000_0000 <= 1);
    assert(low as u64 as int == low);
}

/// Among doubles without the sign bit, a larger bit pattern is a larger
/// magnitude.
proof fn lemma_magnitude_increases(x: u64, y: u64)
    requires
        x < y < SIGN_BIT,
    ensures
        double_magnitude(x) < double_magnitude(y),
{
    broadcast use vstd::arithmetic::power2::lemma_pow2_pos, vstd::arithmetic::power2::lemma_pow2_unfold;
    let c = fraction_span();
    let ex = x as int / c;
    let ey = y as int / c;
    let fx = x as int % c;
    let fy = y as int % c;
    assert(x as int == ex * c + fx);
    assert(y as int == ey * c + fy);
    assert(0 <= ex < 2048 && 0 <= ey < 2048);
    assert(ex % 2048 == ex && ey % 2048 == ey);
    assert(ex <= ey);
    if ex == ey {
        assert(fx < fy);
        if ex > 0 {
            let p = pow2((ex - 1) as nat);
            assert(p > 0);
            vstd::arithmetic::mul::lemma_mul_strict_inequality(fx + c, fy + c, p as int);
        }
    } else {
        // x lies below 2^52 * 2^ex, y at or above 2^52 * 2^(ey - 1)
        let py = pow2((ey - 1) as nat);
        assert(py > 0);
        assert(double_magnitude(y) >= c * py) by {
            vstd::arithmetic::mul::lemma_mul_inequality(c, fy + c, py as int);
        }
        if ex == 0 {
            assert(double_magnitude(x) == fx);
            assert(py >= 1);
            vstd::arithmetic::mul::lemma_mul_inequality(1, py as int, c);
        } else {
            let px = pow2((ex - 1) as nat);
            assert(px > 0);
            vstd::arithmetic::mul::lemma_mul_strict_inequality(fx + c, 2 * c, px as int);
            if ex - 1 < ey - 1 {
                vstd::arithmetic::power2::lemma_pow2_strictly_increases((ex - 1) as nat, (ey - 1) as nat);
                assert(pow2(ex as nat) == 2 * px);
                if ex < ey - 1 {
                    vstd::arithmetic::power2::lemma_pow2_strictly_increases(ex as nat, (ey - 1) as nat);
                }
                assert(2 * px <= py);
                vstd::arithmetic::mul::lemma_mul_inequality(2 * px as int, py as int, c);
                assert((2 * c) * px == c * (2 * px)) by (nonlinear_arith);
            }
        }
    }
}

/// The order key of a double in plain arithmetic: `2^63 + low` for a
/// double without the sign bit or `-0.0`, and `2^63 - 1 - low` for a
/// negative one, `low` being its bits without the sign.
proof fn lemma_score_key_arith(bits: u64)
    ensures
        bits <= SIGN_BIT ==> score_key(bits) as int == SIGN_BIT as int + (bits as int % 0x8000_0000_0000_0000),
        bits > SIGN_BIT ==> score_key(bits) as int == SIGN_BIT as int - 1 - (bits as int % 0x8000_0000_0000_0000),
{
    if bits == SIGN_BIT {
        assert(0u64 & SIGN_BIT == 0 && 0u64 | SIGN_BIT == SIGN_BIT) by (bit_vector);
        assert(bits as int % 0x8000_0000_0000_0000 == 0);
    } else if bits < SIGN_BIT {
        assert(bits & SIGN_BIT == 0 && bits | SIGN_BIT == bits + SIGN_BIT) by (bit_vector)
            requires
                bits < 0x8000_0000_0000_0000u64,
        ;
    } else {
        assert(bits & SIGN_BIT != 0 && !bits == 0xFFFF_FFFF_FFFF_FFFFu64 - bits) by (bit_vector)
            requires
                bits > 0x8000_0000_0000_0000u64,
        ;
    }
}

/// Scores keep the order of the doubles they are: for scores that are
/// not NaN, a smaller double has a smaller order key, and equal doubles
/// (`-0.0` and `0.0` among them) have equal keys.
pub proof fn law_score_key_orders_as_doubles(a: u64, b: u64)
    requires
        !score_is_nan(a),
        !score_is_nan(b),
    ensures
        double_value(a) < double_value(b) ==> score_key(a) < score_key(b),
        double_value(a) == double_value(b) ==> score_key(a) == score_key(b),
{
    let la = (a as int % 0x8000_0000_0000_0000) as u64;
    let lb = (b as int % 0x8000_0000_0000_0000) as u64;
    lemma_magnitude_unsigned(a);
    lemma_magnitude_unsigned(b);
    lemma_score_key_arith(a);
    lemma_score_key_arith(b);
    assert(double_magnitude(0) == 0);
    if la < lb {
        lemma_magnitude_increases(la, lb);
    } else if lb < la {
        lemma_magnitude_increases(lb, la);
    }
    if 0 < la {
        lemma_magnitude_increases(0, la);
    }
    if 0 < lb {
        lemma_magnitude_increases(0, lb);
    }
    assert(a == SIGN_BIT ==> la == 0);
    assert(b == SIGN_BIT ==> lb == 0);
    assert(a > SIGN_BIT ==> la > 0);
    assert(b > SIGN_BIT ==> lb > 0);
}

/// For scores that are not NaN, comparing order keys is comparing the
/// doubles: `range_by_score(min, max)` lists the members whose score, as a
/// double, lies from `min` to `max`.
pub proof fn law_score_key_compares_as_doubles(a: u64, b: u64)
    requires
        !score_is_nan(a),
        !score_is_nan(b),
    ensures
        score_key(a) <= score_key(b) <==> double_value(a) <= double_value(b),
{
    law_score_key_orders_as_doubles(a, b);
    law_score_key_orders_as_doubles(b, a);
}

/// Computes `score_key`.
pub fn order_key(bits: u64) -> (k: u64)
    ensures
        k == score_key(bits),
{
    let b = if bits == SIGN_BIT { 0u64 } else { bits };
    if b & SIGN_BIT != 0 {
        !b
    } else {
        b | SIGN_BIT
    }
}

/// Computes `score_is_nan`.
pub fn is_nan_score(bits: u64) -> (r: bool)
    ensures
        r == score_is_nan(bits),
{
    bits & EXPONENT_BITS == EXPONENT_BITS && bits & FRACTION_BITS != 0
}

/// A member with its score, as seen by specifications.
pub type ScoredView = (ValueView, u64);

/// The ordered members with their scores.
pub open spec fn scored_views(s: Seq<(Value, u64)>) -> Seq<ScoredView> {
    s.map_values(|e: (Value, u64)| (e.0@, e.1))
}

/// Ordered by key, ties in any order.
pub open spec fn is_sorted(s: Seq<ScoredView>) -> bool {
    forall|i: int, j: int| 0 <= i <= j < s.len() ==> score_key(#[trigger] s[i].1) <= score_key(#[trigger] s[j].1)
}

/// No member occurs twice.
pub open spec fn members_unique(s: Seq<ScoredView>) -> bool {
    forall|i: int, j: int| 0 <= i < j < s.len() ==> (#[trigger] s[i]).0 != (#[trigger] s[j]).0
}

/// The number of leading items whose key is at most `k`.
pub open spec fn count_up_to(s: Seq<ScoredView>, k: u64) -> int
    decreases s.len(),
{
    if s.len() == 0 {
        0
    } else if score_key(s[0].1) <= k {
        1 + count_up_to(s.drop_first(), k)
    } else {
        0
    }
}

/// `x` placed after every item whose key is at most its own.
pub open spec fn insert_sorted(s: Seq<ScoredView>, x: ScoredView) -> Seq<ScoredView> {
    let p = count_up_to(s, score_key(x.1));
    s.take(p).push(x) + s.skip(p)
}

/// Whether `m` is a member.
pub open spec fn has_member(s: Seq<ScoredView>, m: ValueView) -> bool {
    exists|i: int| 0 <= i < s.len() && (#[trigger] s[i]).0 == m
}

/// The position of member `m`.
pub open spec fn member_position(s: Seq<ScoredView>, m: ValueView) -> int {
    choose|i: int| 0 <= i < s.len() && (#[trigger] s[i]).0 == m
}

/// `s` without member `m`.
pub open spec fn without_member(s: Seq<ScoredView>, m: ValueView) -> Seq<ScoredView> {
    if has_member(s, m) {
        s.remove(member_position(s, m))
    } else {
        s
    }
}

/// The score of member `m`.
pub open spec fn score_of(s: Seq<ScoredView>, m: ValueView) -> Option<u64> {
    if has_member(s, m) {
        Some(s[member_position(s, m)].1)
    } else {
        None
    }
}

/// The members whose key lies in `[lo, hi]`, in order.
pub open spec fn keys_between(s: Seq<ScoredView>, lo: u64, hi: u64) -> Seq<ValueView> {
    s.filter(|e: ScoredView| lo <= score_key(e.1) <= hi).map_values(|e: ScoredView| e.0)
}

proof fn lemma_count_up_to(s: Seq<ScoredView>, k: u64, p: int)
    requires
        0 <= p <= s.len(),
        forall|i: int| 0 <= i < p ==> score_key(#[trigger] s[i].1) <= k,
        p == s.len() || score_key(s[p].1) > k,
    ensures
        count_up_to(s, k) == p,
    decreases p,
{
    if p > 0 {
        assert forall|i: int| 0 <= i < p - 1 implies score_key(#[trigger] s.drop_first()[i].1) <= k by {
            assert(s.drop_first()[i] == s[i + 1]);
        }
        if p < s.len() {
            assert(s.drop_first()[p - 1] == s[p]);
        }
        lemma_count_up_to(s.drop_first(), k, p - 1);
    }
}

proof fn lemma_filter_slice(s: Seq<ScoredView>, lo: u64, hi: u64, a: int, b: int)
    requires
        0 <= a <= b <= s.len(),
        forall|i: int| 0 <= i < a ==> score_key(#[trigger] s[i].1) < lo,
        forall|i: int| a <= i < b ==> lo <= score_key(#[trigger] s[i].1) <= hi,
        forall|i: int| b <= i < s.len() ==> score_key(#[trigger] s[i].1) > hi,
    ensures
        s.filter(|e: ScoredView| lo <= score_key(e.1) <= hi) == s.subrange(a, b),
    decreases s.len(),
{
    let f = |e: ScoredView| lo <= score_key(e.1) <= hi;
    reveal(Seq::filter);
    if s.len() == 0 {
        assert(s.subrange(a, b) =~= Seq::<ScoredView>::empty());
    } else {
        let t = s.drop_last();
        let n = s.len() - 1;
        if b == s.len() {
            lemma_filter_slice(t, lo, hi, if a <= n { a } else { n }, n);
            if a <= n {
                assert(s.subrange(a, b) =~= t.subrange(a, n).push(s.last()));
            } else {
                assert(s.subrange(a, b) =~= Seq::<ScoredView>::empty());
                assert(t.subrange(n, n) =~= Seq::<ScoredView>::empty());
            }
        } else {
            lemma_filter_slice(t, lo, hi, a, b);
            assert(t.subrange(a, b) =~= s.subrange(a, b));
        }
    }
}

/// Sorted set data structure.
#[derive(Debug)]
pub struct SortedSet {
    /// Members with their scores, ordered by `score_key`.
    pub entries: Vec<(Value, u64)>,
}

impl View for SortedSet {
    type V = Seq<ScoredView>;

    open spec fn view(&self) -> Seq<ScoredView> {
        scored_views(self.entries@)
    }
}

impl Default for SortedSet {
    fn default() -> (s: Self)
        ensures
            s.wf(),
            s@ == Seq::<ScoredView>::empty(),
    {
        Self::new()
    }
}

impl SortedSet {
    /// Ordered by key, each member once.
    pub open spec fn wf(&self) -> bool {
        is_sorted(self@) && members_unique(self@)
    }

    /// A well-formed sorted set lists its members by ascending score as
    /// doubles: of two members whose scores are not NaN, the earlier one's
    /// score is at most the later one's; so does every range of it.
    pub proof fn law_members_in_score_order(&self, i: int, j: int)
        requires
            self.wf(),
            0 <= i <= j < self@.len(),
            !score_is_nan(self@[i].1),
            !score_is_nan(self@[j].1),
        ensures
            double_value(self@[i].1) <= double_value(self@[j].1),
    {
        law_score_key_orders_as_doubles(self@[j].1, self@[i].1);
        assert(score_key(self@[i].1) <= score_key(self@[j].1));
    }

    /// What `range(start, end)` lists is in ascending score order as
    /// doubles (among scores that are not NaN).
    pub proof fn law_range_in_score_order(&self, start: int, end: int, p: int, q: int)
        requires
            self.wf(),
            range_in_bounds(self@.len() as int, start, end),
            0 <= p <= q < range_of(self@, start, end).len(),
            !score_is_nan(range_of(self@, start, end)[p].1),
            !score_is_nan(range_of(self@, start, end)[q].1),
        ensures
            double_value(range_of(self@, start, end)[p].1) <= double_value(range_of(self@, start, end)[q].1),
    {
        let first = crate::collections::range_first(self@.len() as int, start);
        assert(range_of(self@, start, end)[p] == self@[first + p]);
        assert(range_of(self@, start, end)[q] == self@[first + q]);
        self.law_members_in_score_order(first + p, first + q);
    }

    /// An empty sorted set.
    pub fn new() -> (s: Self)
        ensures
            s.wf(),
            s@ == Seq::<ScoredView>::empty(),
    {
        let s = SortedSet { entries: Vec::new() };
        assert(s@ =~= Seq::<ScoredView>::empty());
        s
    }

    fn position(&self, member: &Value) -> (r: Option<usize>)
        ensures
            match r {
                Some(i) => i < self@.len() && self@[i as int].0 == member@ && has_member(self@, member@),
                None => !has_member(self@, member@),
            },
    {
        let mut i: usize = 0;
        while i < self.entries.len()
            invariant
                i <= self.entries@.len(),
                forall|j: int| 0 <= j < i ==> self@[j].0 != member@,
            decreases self.entries@.len() - i,
        {
            if self.entries[i].0.equals(member) {
                assert(self@[i as int].0 == member@);
                return Some(i);
            }
            i = i + 1;
        }
        None
    }

    proof fn lemma_position_unique(&self, i: int, m: ValueView)
        requires
            self.wf(),
            0 <= i < self@.len(),
            self@[i].0 == m,
        ensures
            member_position(self@, m) == i,
    {
        let j = member_position(self@, m);
        assert(0 <= j < self@.len() && self@[j].0 == m);
        if j < i {
            assert(self@[j].0 != self@[i].0);
        } else if i < j {
            assert(self@[i].0 != self@[j].0);
        }
    }

    /// Adds `member` with `score` (a double's bits), moving it if it is
    /// already present; it goes after every member whose score is not
    /// greater. Always true.
    pub fn add(&mut self, member: Value, score: u64) -> (r: bool)
        requires
            old(self).wf(),
        ensures
            final(self).wf(),
            final(self)@ == insert_sorted(without_member(old(self)@, member@), (member@, score)),
            r,
    {
        let ghost m = member@;
        match self.position(&member) {
            Some(i) => {
                proof {
                    self.lemma_position_unique(i as int, m);
                }
                self.entries.remove(i);
                assert(self@ =~= old(self)@.remove(i as int));
            },
            None => {},
        }
        let ghost rest = self@;
        assert(rest == without_member(old(self)@, m));
        assert(is_sorted(rest) && members_unique(rest) && !has_member(rest, m)) by {
            let o = old(self)@;
            if has_member(o, m) {
                let i = member_position(o, m);
                assert(rest == o.remove(i));
                assert forall|a: int, b: int| 0 <= a <= b < rest.len() implies score_key(#[trigger] rest[a].1) <= score_key(#[trigger] rest[b].1) by {
                    let a2 = if a < i { a } else { a + 1 };
                    let b2 = if b < i { b } else { b + 1 };
                    assert(rest[a] == o[a2]);
                    assert(rest[b] == o[b2]);
                }
                assert forall|a: int, b: int| 0 <= a < b < rest.len() implies (#[trigger] rest[a]).0 != (#[trigger] rest[b]).0 by {
                    let a2 = if a < i { a } else { a + 1 };
                    let b2 = if b < i { b } else { b + 1 };
                    assert(rest[a] == o[a2]);
                    assert(rest[b] == o[b2]);
                }
                if has_member(rest, m) {
                    let j = choose|j: int| 0 <= j < rest.len() && rest[j].0 == m;
                    let j2 = if j < i { j } else { j + 1 };
                    assert(rest[j] == o[j2]);
                    assert(o[i].0 == m);
                    if j2 < i { assert(o[j2].0 != o[i].0); } else { assert(o[i].0 != o[j2].0); }
                }
            }
        }
        let k = order_key(score);
        let mut p: usize = 0;
        while p < self.entries.len() && order_key(self.entries[p].1) <= k
            invariant
                self@ == rest,
                p <= rest.len(),
                forall|i: int| 0 <= i < p ==> score_key(#[trigger] rest[i].1) <= k,
            decreases rest.len() - p,
        {
            p = p + 1;
        }
        proof {
            lemma_count_up_to(rest, k, p as int);
        }
        self.entries.insert(p, (member, score));
        proof {
            let x = (m, score);
            let n = self@;
            assert(n =~= rest.take(p as int).push(x) + rest.skip(p as int));
            assert forall|a: int, b: int| 0 <= a <= b < n.len() implies score_key(#[trigger] n[a].1) <= score_key(#[trigger] n[b].1) by {
                if a < p && b > p {
                    assert(n[b] == rest[b - 1]);
                } else if a == p && b > p {
                    assert(n[b] == rest[b - 1]);
                    if b - 1 > p {
                        assert(score_key(rest[p as int].1) <= score_key(rest[b - 1].1));
                    }
                } else if a > p {
                    assert(n[a] == rest[a - 1]);
                    assert(n[b] == rest[b - 1]);
                }
            }
            assert forall|a: int, b: int| 0 <= a < b < n.len() implies (#[trigger] n[a]).0 != (#[trigger] n[b]).0 by {
                if a == p {
                    assert(n[b] == rest[b - 1]);
                } else if b == p {
                    assert(n[a] == rest[a]);
                } else {
                    let a2 = if a < p { a } else { a - 1 };
                    let b2 = if b < p { b } else { b - 1 };
                    assert(n[a] == rest[a2]);
                    assert(n[b] == rest[b2]);
                }
            }
        }
        true
    }

    /// Removes `member`; true if it was present.
    pub fn remove(&mut self, member: &Value) -> (r: bool)
        requires
            old(self).wf(),
        ensures
            final(self).wf(),
            final(self)@ == without_member(old(self)@, member@),
            r == has_member(old(self)@, member@),
    {
        match self.position(member) {
            Some(i) => {
                proof {
                    self.lemma_position_unique(i as int, member@);
                }
                self.entries.remove(i);
                proof {
                    let o = old(self)@;
                    let n = self@;
                    assert(n =~= o.remove(i as int));
                    assert forall|a: int, b: int| 0 <= a <= b < n.len() implies score_key(#[trigger] n[a].1) <= score_key(#[trigger] n[b].1) by {
                        let a2 = if a < i { a } else { a + 1 };
                        let b2 = if b < i { b } else { b + 1 };
                        assert(n[a] == o[a2]);
                        assert(n[b] == o[b2]);
                    }
                    assert forall|a: int, b: int| 0 <= a < b < n.len() implies (#[trigger] n[a]).0 != (#[trigger] n[b]).0 by {
                        let a2 = if a < i { a } else { a + 1 };
                        let b2 = if b < i { b } else { b + 1 };
                        assert(n[a] == o[a2]);
                        assert(n[b] == o[b2]);
                    }
                }
                true
            },
            None => false,
        }
    }

    /// The score of `member`.
    pub fn score(&self, member: &Value) -> (r: Option<u64>)
        requires
            self.wf(),
        ensures
            r == score_of(self@, member@),
    {
        match self.position(member) {
            Some(i) => {
                proof {
                    self.lemma_position_unique(i as int, member@);
                }
                Some(self.entries[i].1)
            },
            None => None,
        }
    }

    /// The members between positions `start` and `end` (both included) in
    /// score order; negative positions count from the back.
    pub fn range(&self, start: isize, end: isize) -> (r: Vec<&Value>)
        requires
            range_in_bounds(self@.len() as int, start as int, end as int),
        ensures
            value_views(r@.map_values(|v: &Value| *v)) == range_of(self@, start as int, end as int).map_values(|e: ScoredView| e.0),
    {
        let (first, last) = range_positions(self.entries.len(), start, end);
        let mut r: Vec<&Value> = Vec::new();
        if first > last {
            assert(value_views(r@.map_values(|v: &Value| *v)) =~= range_of(self@, start as int, end as int).map_values(|e: ScoredView| e.0));
            return r;
        }
        let mut i: usize = first;
        while i <= last
            invariant
                first <= last < self.entries.len(),
                first <= i <= last + 1,
                r@.len() == i - first,
                forall|j: int| 0 <= j < r@.len() ==> (*#[trigger] r@[j])@ == self@[first + j].0,
            decreases last + 1 - i,
        {
            r.push(&self.entries[i].0);
            i = i + 1;
        }
        assert(value_views(r@.map_values(|v: &Value| *v)) =~= range_of(self@, start as int, end as int).map_values(|e: ScoredView| e.0));
        r
    }

    /// The members whose score lies between `min_score` and `max_score`
    /// (both included), in score order.
    pub fn range_by_score(&self, min_score: u64, max_score: u64) -> (r: Vec<&Value>)
        requires
            self.wf(),
            score_is_nan(min_score) || score_is_nan(max_score) || score_key(min_score) <= score_key(max_score),
        ensures
            value_views(r@.map_values(|v: &Value| *v)) == keys_between(self@, score_key(min_score), score_key(max_score)),
    {
        let lo = order_key(min_score);
        let hi = order_key(max_score);
        let n = self.entries.len();
        let mut a: usize = 0;
        while a < n && order_key(self.entries[a].1) < lo
            invariant
                n == self@.len(),
                a <= n,
                forall|i: int| 0 <= i < a ==> score_key(#[trigger] self@[i].1) < lo,
            decreases n - a,
        {
            a = a + 1;
        }
        let mut r: Vec<&Value> = Vec::new();
        let mut b: usize = a;
        while b < n && order_key(self.entries[b].1) <= hi
            invariant
                self.wf(),
                n == self@.len(),
                a <= b <= n,
                a == n || score_key(self@[a as int].1) >= lo,
                forall|i: int| a <= i < b ==> score_key(#[trigger] self@[i].1) <= hi,
                r@.len() == b - a,
                forall|j: int| 0 <= j < r@.len() ==> (*#[trigger] r@[j])@ == self@[a + j].0,
            decreases n - b,
        {
            r.push(&self.entries[b].0);
            b = b + 1;
        }
        proof {
            let s = self@;
            assert forall|i: int| a <= i < b implies lo <= score_key(#[trigger] s[i].1) <= hi by {
                assert(score_key(s[a as int].1) <= score_key(s[i].1));
            }
            assert forall|i: int| b <= i < s.len() implies score_key(#[trigger] s[i].1) > hi by {
                assert(score_key(s[b as int].1) <= score_key(s[i].1));
            }
            lemma_filter_slice(s, lo, hi, a as int, b as int);
            assert(value_views(r@.map_values(|v: &Value| *v)) =~= s.subrange(a as int, b as int).map_values(|e: ScoredView| e.0));
        }
        r
    }

    /// The number of members.
    pub fn len(&self) -> (n: usize)
        ensures
            n == self@.len(),
    {
        self.entries.len()
    }

    /// Whether there are no members.
    pub fn is_empty(&self) -> (b: bool)
        ensures
            b == (self@.len() == 0),
    {
        self.entries.len() == 0
    }
}

} // verus!
