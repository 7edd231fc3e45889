use vstd::prelude::*;

use crate::math::{
    dot, lemma_dot_nonneg, lemma_dot_self, lemma_dot_symmetric, norm_sq, spec_dot, spec_norm_sq,
    SparseVector, SvModel,
};

verus! {

/// An exact cosine-similarity score. The similarity of two count vectors is
/// `dot / (sqrt(norm_sq_a) * sqrt(norm_sq_b))`; instead of rounding that
/// real number, the three integers are kept, which lets scores be compared
/// exactly. A zero norm reads as similarity zero, never as a division by
/// zero.
#[derive(Clone, Copy, Debug, PartialEq, Eq, Structural)]
pub struct Score {
    pub dot: u64,
    pub norm_sq_a: u64,
    pub norm_sq_b: u64,
}

/// The numerator of the squared similarity, as a rational paired with
/// `sim_sq_den`. Counts are non-negative, so similarities lie in `[0, 1]`
/// and comparing squared similarities compares similarities.
pub open spec fn sim_sq_num(s: Score) -> int {
    if s.norm_sq_a == 0 || s.norm_sq_b == 0 {
        0
    } else {
        s.dot * s.dot
    }
}

/// The denominator of the squared similarity.
pub open spec fn sim_sq_den(s: Score) -> int {
    if s.norm_sq_a == 0 || s.norm_sq_b == 0 {
        1
    } else {
        s.norm_sq_a * s.norm_sq_b
    }
}

/// Exact comparison of two scores as rationals:
/// `sim(s1) <= sim(s2)` as real numbers.
pub open spec fn spec_score_le(s1: Score, s2: Score) -> bool {
    sim_sq_num(s1) * sim_sq_den(s2) <= sim_sq_num(s2) * sim_sq_den(s1)
}

/// A score that reads as exactly zero.
pub open spec fn spec_score_is_zero(s: Score) -> bool {
    sim_sq_num(s) == 0
}

impl Score {
    pub fn is_zero(&self) -> (r: bool)
        ensures
            r == spec_score_is_zero(*self),
    {
        proof {
            assert((self.dot as int) * (self.dot as int) == 0 <==> self.dot == 0)
                by (nonlinear_arith);
        }
        self.dot == 0 || self.norm_sq_a == 0 || self.norm_sq_b == 0
    }
}

/// The full product of two 64-bit halves stays below `2^128`.
proof fn lemma_mul_u64_bound(x: u128, y: u128)
    requires
        x < 0x1_0000_0000_0000_0000,
        y < 0x1_0000_0000_0000_0000,
    ensures
        x * y <= 0xffff_ffff_ffff_ffff * 0xffff_ffff_ffff_ffff,
{
    assert(x * y <= 0xffff_ffff_ffff_ffff * 0xffff_ffff_ffff_ffff) by (nonlinear_arith)
        requires
            0 <= x <= 0xffff_ffff_ffff_ffff,
            0 <= y <= 0xffff_ffff_ffff_ffff,
    ;
}

/// A value below `2^128` splits as `high * 2^64 + low` with both halves
/// below `2^64`.
proof fn lemma_split_u128(x: u128)
    ensures
        x == (x / 0x1_0000_0000_0000_0000) * 0x1_0000_0000_0000_0000 + (x
            % 0x1_0000_0000_0000_0000),
        0 <= x % 0x1_0000_0000_0000_0000 < 0x1_0000_0000_0000_0000,
        0 <= x / 0x1_0000_0000_0000_0000 < 0x1_0000_0000_0000_0000,
{
    let l: int = 0x1_0000_0000_0000_0000;
    assert(x == l * ((x as int) / l) + (x as int) % l) by {
        vstd::arithmetic::div_mod::lemma_fundamental_div_mod(x as int, l);
    }
    assert(0 <= (x as int) % l < l) by {
        vstd::arithmetic::div_mod::lemma_mod_bound(x as int, l);
    }
    assert((x as int) / l < l) by (nonlinear_arith)
        requires
            x < l * l,
            l > 0,
            x == l * ((x as int) / l) + (x as int) % l,
            (x as int) % l >= 0,
    ;
    assert((x as int) / l >= 0) by {
        vstd::arithmetic::div_mod::lemma_div_pos_is_pos(x as int, l);
    }
}

/// The exact 256-bit product of two 128-bit values, as
/// `high * 2^128 + low`. All the narrowing steps are proved, so the result
/// is the true product, never a wrapped one.
fn mul_u128_wide(a: u128, b: u128) -> (r: (u128, u128))
    ensures
        (r.0 as int) * (0x1_0000_0000_0000_0000 as int * 0x1_0000_0000_0000_0000) + r.1 == a * b,
{
    let ghost l: int = 0x1_0000_0000_0000_0000;
    let ah: u128 = a / 0x1_0000_0000_0000_0000;
    let al: u128 = a % 0x1_0000_0000_0000_0000;
    let bh: u128 = b / 0x1_0000_0000_0000_0000;
    let bl: u128 = b % 0x1_0000_0000_0000_0000;
    proof {
        lemma_split_u128(a);
        lemma_split_u128(b);
        lemma_mul_u64_bound(al, bl);
        lemma_mul_u64_bound(al, bh);
        lemma_mul_u64_bound(ah, bl);
        lemma_mul_u64_bound(ah, bh);
    }
    let p0: u128 = al * bl;
    let p1: u128 = al * bh;
    let p2: u128 = ah * bl;
    let p3: u128 = ah * bh;
    proof {
        lemma_split_u128(p0);
        lemma_split_u128(p1);
        lemma_split_u128(p2);
        // The high halves of the cross products leave room for the carries:
        // p1 <= (2^64 - 1)^2 gives p1 / 2^64 <= 2^64 - 2, and likewise p2.
        assert(p1 / 0x1_0000_0000_0000_0000 < 0xffff_ffff_ffff_ffff) by (nonlinear_arith)
            requires
                p1 <= 0xffff_ffff_ffff_ffff * 0xffff_ffff_ffff_ffff,
                p1 == (p1 / 0x1_0000_0000_0000_0000) * 0x1_0000_0000_0000_0000 + (p1
                    % 0x1_0000_0000_0000_0000),
                p1 % 0x1_0000_0000_0000_0000 >= 0,
                p1 / 0x1_0000_0000_0000_0000 >= 0,
        ;
        assert(p2 / 0x1_0000_0000_0000_0000 < 0xffff_ffff_ffff_ffff) by (nonlinear_arith)
            requires
                p2 <= 0xffff_ffff_ffff_ffff * 0xffff_ffff_ffff_ffff,
                p2 == (p2 / 0x1_0000_0000_0000_0000) * 0x1_0000_0000_0000_0000 + (p2
                    % 0x1_0000_0000_0000_0000),
                p2 % 0x1_0000_0000_0000_0000 >= 0,
                p2 / 0x1_0000_0000_0000_0000 >= 0,
        ;
    }
    let mid: u128 = p0 / 0x1_0000_0000_0000_0000 + p1 % 0x1_0000_0000_0000_0000 + p2
        % 0x1_0000_0000_0000_0000;
    proof {
        lemma_split_u128(mid);
        assert((mid as int) / l <= 2) by (nonlinear_arith)
            requires
                mid <= 3 * (l - 1),
                l > 2,
                mid == ((mid as int) / l) * l + (mid as int) % l,
                (mid as int) % l >= 0,
                (mid as int) / l >= 0,
        ;
    }
    let lo: u128 = p0 % 0x1_0000_0000_0000_0000 + (mid % 0x1_0000_0000_0000_0000)
        * 0x1_0000_0000_0000_0000;
    let hi: u128 = p3 + p1 / 0x1_0000_0000_0000_0000 + p2 / 0x1_0000_0000_0000_0000 + mid
        / 0x1_0000_0000_0000_0000;
    proof {
        assert(a * b == (ah * bh) * (l * l) + (al * bh + ah * bl) * l + al * bl)
            by (nonlinear_arith)
            requires
                a == ah * l + al,
                b == bh * l + bl,
                l == 0x1_0000_0000_0000_0000,
        ;
        assert(hi * (l * l) + lo == a * b);
    }
    (hi, lo)
}

/// Exact comparison of two scores. True exactly when the similarity that
/// `s1` stands for is at most the one `s2` stands for, decided by comparing
/// the squared similarities as rationals with 256-bit cross products.
pub fn score_le(s1: &Score, s2: &Score) -> (r: bool)
    ensures
        r == spec_score_le(*s1, *s2),
{
    proof {
        lemma_mul_u64_bound(s1.dot as u128, s1.dot as u128);
        lemma_mul_u64_bound(s1.norm_sq_a as u128, s1.norm_sq_b as u128);
        lemma_mul_u64_bound(s2.dot as u128, s2.dot as u128);
        lemma_mul_u64_bound(s2.norm_sq_a as u128, s2.norm_sq_b as u128);
    }
    let num1: u128 = if s1.norm_sq_a == 0 || s1.norm_sq_b == 0 {
        0
    } else {
        (s1.dot as u128) * (s1.dot as u128)
    };
    let den1: u128 = if s1.norm_sq_a == 0 || s1.norm_sq_b == 0 {
        1
    } else {
        (s1.norm_sq_a as u128) * (s1.norm_sq_b as u128)
    };
    let num2: u128 = if s2.norm_sq_a == 0 || s2.norm_sq_b == 0 {
        0
    } else {
        (s2.dot as u128) * (s2.dot as u128)
    };
    let den2: u128 = if s2.norm_sq_a == 0 || s2.norm_sq_b == 0 {
        1
    } else {
        (s2.norm_sq_a as u128) * (s2.norm_sq_b as u128)
    };
    proof {
        assert(num1 == sim_sq_num(*s1));
        assert(den1 == sim_sq_den(*s1));
        assert(num2 == sim_sq_num(*s2));
        assert(den2 == sim_sq_den(*s2));
    }
    let lhs = mul_u128_wide(num1, den2);
    let rhs = mul_u128_wide(num2, den1);
    let r = lhs.0 < rhs.0 || (lhs.0 == rhs.0 && lhs.1 <= rhs.1);
    proof {
        let b: int = 0x1_0000_0000_0000_0000 as int * 0x1_0000_0000_0000_0000;
        assert((lhs.0 as int) * b + lhs.1 == num1 * den2);
        assert((rhs.0 as int) * b + rhs.1 == num2 * den1);
        if lhs.0 < rhs.0 {
            assert((lhs.0 as int) * b + b <= (rhs.0 as int) * b) by (nonlinear_arith)
                requires
                    lhs.0 < rhs.0,
                    b > 0,
            ;
        }
        if lhs.0 > rhs.0 {
            assert((rhs.0 as int) * b + b <= (lhs.0 as int) * b) by (nonlinear_arith)
                requires
                    rhs.0 < lhs.0,
                    b > 0,
            ;
        }
    }
    r
}

/// The exact cosine-similarity score of two sparse count vectors: the dot
/// product and the two squared norms, each summed exactly in 64 bits.
/// `None` reports that one of the three sums does not fit, never a rounded
/// or wrapped score.
pub fn cosine_similarity(a: &SparseVector, b: &SparseVector) -> (r: Option<Score>)
    requires
        a.wf(),
        b.wf(),
    ensures
        match r {
            Some(s) => s.dot == spec_dot(a.sv(), b.sv()) && s.norm_sq_a == spec_norm_sq(a.sv())
                && s.norm_sq_b == spec_norm_sq(b.sv()),
            None => spec_dot(a.sv(), b.sv()) > u64::MAX || spec_norm_sq(a.sv()) > u64::MAX
                || spec_norm_sq(b.sv()) > u64::MAX,
        },
{
    let d = match dot(a, b) {
        Some(v) => v,
        None => {
            return None;
        },
    };
    let na = match norm_sq(a) {
        Some(v) => v,
        None => {
            return None;
        },
    };
    let nb = match norm_sq(b) {
        Some(v) => v,
        None => {
            return None;
        },
    };
    Some(Score { dot: d, norm_sq_a: na, norm_sq_b: nb })
}

/// A score denominator is always positive.
pub proof fn lemma_sim_den_pos(s: Score)
    ensures
        sim_sq_den(s) > 0,
        sim_sq_num(s) >= 0,
{
    if s.norm_sq_a != 0 && s.norm_sq_b != 0 {
        assert((s.norm_sq_a as int) * (s.norm_sq_b as int) > 0) by (nonlinear_arith)
            requires
                s.norm_sq_a > 0,
                s.norm_sq_b > 0,
        ;
        assert((s.dot as int) * (s.dot as int) >= 0) by (nonlinear_arith);
    }
}

/// Score comparison is total: any two scores compare one way or the other.
pub proof fn lemma_score_le_total(s1: Score, s2: Score)
    ensures
        spec_score_le(s1, s2) || spec_score_le(s2, s1),
{
}

/// Score comparison is transitive.
pub proof fn lemma_score_le_trans(a: Score, b: Score, c: Score)
    requires
        spec_score_le(a, b),
        spec_score_le(b, c),
    ensures
        spec_score_le(a, c),
{
    lemma_sim_den_pos(a);
    lemma_sim_den_pos(b);
    lemma_sim_den_pos(c);
    let na = sim_sq_num(a);
    let nb = sim_sq_num(b);
    let nc = sim_sq_num(c);
    let da = sim_sq_den(a);
    let db = sim_sq_den(b);
    let dc = sim_sq_den(c);
    assert(na * db * dc <= nb * da * dc) by (nonlinear_arith)
        requires
            na * db <= nb * da,
            dc > 0,
    ;
    assert(nb * dc * da <= nc * db * da) by (nonlinear_arith)
        requires
            nb * dc <= nc * db,
            da > 0,
    ;
    assert(nb * da * dc == nb * dc * da) by (nonlinear_arith);
    assert(na * db * dc <= nc * db * da) by (nonlinear_arith)
        requires
            na * db * dc <= nb * da * dc,
            nb * da * dc == nb * dc * da,
            nb * dc * da <= nc * db * da,
    ;
    assert(na * db * dc == na * dc * db) by (nonlinear_arith);
    assert(nc * db * da == nc * da * db) by (nonlinear_arith);
    assert(na * dc <= nc * da) by (nonlinear_arith)
        requires
            na * dc * db <= nc * da * db,
            db > 0,
    ;
}

/// Law: cosine similarity is symmetric. The score computed of `(a, b)` and
/// the score computed of `(b, a)` stand for the same rational, so each
/// compares `<=` against the other.
pub proof fn lemma_similarity_symmetric(s1: Score, s2: Score, a: SvModel, b: SvModel)
    requires
        crate::math::sv_distinct(a),
        crate::math::sv_distinct(b),
        s1.dot == spec_dot(a, b),
        s1.norm_sq_a == spec_norm_sq(a),
        s1.norm_sq_b == spec_norm_sq(b),
        s2.dot == spec_dot(b, a),
        s2.norm_sq_a == spec_norm_sq(b),
        s2.norm_sq_b == spec_norm_sq(a),
    ensures
        spec_score_le(s1, s2),
        spec_score_le(s2, s1),
{
    lemma_dot_symmetric(a, b);
    assert(s1.dot == s2.dot);
    assert(sim_sq_num(s1) == sim_sq_num(s2));
    assert(sim_sq_den(s1) == sim_sq_den(s2)) by {
        if s1.norm_sq_a != 0 && s1.norm_sq_b != 0 {
            assert((s1.norm_sq_a as int) * (s1.norm_sq_b as int) == (s2.norm_sq_a as int) * (
            s2.norm_sq_b as int)) by (nonlinear_arith)
                requires
                    s1.norm_sq_a == s2.norm_sq_b,
                    s1.norm_sq_b == s2.norm_sq_a,
            ;
        }
    }
}

/// Law: the self-similarity of a vector with a non-zero norm is exactly
/// one — its squared similarity has equal numerator and denominator.
pub proof fn lemma_self_similarity_one(s: Score, a: SvModel)
    requires
        crate::math::sv_distinct(a),
        spec_norm_sq(a) != 0,
        s.dot == spec_dot(a, a),
        s.norm_sq_a == spec_norm_sq(a),
        s.norm_sq_b == spec_norm_sq(a),
    ensures
        sim_sq_num(s) == sim_sq_den(s),
        sim_sq_num(s) != 0,
{
    lemma_dot_self(a);
    lemma_dot_nonneg(a, a);
    assert(s.dot == s.norm_sq_a);
    assert((s.dot as int) * (s.dot as int) != 0) by (nonlinear_arith)
        requires
            s.dot != 0,
    ;
}

/// Law: a score against a zero-norm vector reads as similarity zero — the
/// division by zero is recovered locally, not reported.
pub proof fn lemma_zero_norm_similarity_zero(s: Score)
    requires
        s.norm_sq_a == 0 || s.norm_sq_b == 0,
    ensures
        spec_score_is_zero(s),
{
}

} // verus!
