//! Symmetric NACA 4-digit airfoil profiles over exact rationals.
//!
//! The thickness half-profile at a normalized chord position `xc = i/m` is
//! `5 * t * c * (0.2969*sqrt(xc) - 0.1260*xc - 0.3516*xc^2 + 0.2843*xc^3
//! - 0.1036*xc^4)`, with the open-trailing-edge coefficient `-0.1036`.
//! The square root is the only irrational ingredient; it is replaced by
//! its exact floor at resolution `1/SCALE`, computed by a verified
//! integer square root, so every output is a well-defined rational pinned
//! down by the contracts below.

use vstd::arithmetic::div_mod::lemma_div_is_ordered;
use vstd::arithmetic::div_mod::lemma_div_multiples_vanish;
use vstd::arithmetic::div_mod::lemma_div_of0;
use vstd::prelude::*;

use crate::parse::dec_den;
use crate::parse::dec_num;
use crate::parse::parse_decimal;
use crate::parse::valid_decimal;
use crate::rat::rat_bounded;
use crate::rat::rat_is;
use crate::rat::Rat;

verus! {

/// Denominator of the square-root approximation: square roots of grid
/// positions are taken as exact multiples of `1 / SCALE`.
pub const SCALE: i128 = 10_000;

/// `r` is the floor of the square root of `v`.
pub open spec fn is_isqrt(r: int, v: int) -> bool {
    0 <= r && r * r <= v && v < (r + 1) * (r + 1)
}

/// The floor of the square root of a nonnegative integer.
pub open spec fn isqrt_spec(v: int) -> int {
    choose|r: int| is_isqrt(r, v)
}

/// Scaled square root of the grid position `i / m`: the numerator over
/// `SCALE` of the approximation used by the thickness formula.
pub open spec fn sqrt_num(i: int, m: int) -> int {
    isqrt_spec((i * (SCALE as int) * (SCALE as int)) / m)
}

/// Numerator of the bracketed thickness polynomial at position `i / m`
/// with scaled square root `k`, over the denominator `poly_den(m)`.
pub open spec fn poly_num(i: int, m: int, k: int) -> int {
    2969 * k * (m * m * m * m) - 1260 * (SCALE as int) * i * (m * m * m) - 3516 * (SCALE as int) * (
    i * i) * (m * m) + 2843 * (SCALE as int) * (i * i * i) * m - 1036 * (SCALE as int) * (i * i * i
        * i)
}

/// Denominator of the bracketed thickness polynomial: the coefficient
/// scale times the square-root scale times `m^4`.
pub open spec fn poly_den(m: int) -> int {
    10_000 * (SCALE as int) * (m * m * m * m)
}

/// Numerator of the upper-surface offset `5 * t * c * poly` at grid
/// position `i` of `m` intervals, for thickness numerator `t_num` and
/// chord numerator `c_num`.
pub open spec fn y_num(t_num: int, c_num: int, i: int, m: int) -> int {
    5 * t_num * c_num * poly_num(i, m, sqrt_num(i, m))
}

/// Matching denominator of the upper-surface offset.
pub open spec fn y_den(t_den: int, c_den: int, m: int) -> int {
    t_den * c_den * poly_den(m)
}

/// Any two floors of the square root of `v` agree.
proof fn lemma_isqrt_unique(r1: int, r2: int, v: int)
    by (nonlinear_arith)
    requires
        0 <= r1,
        r1 * r1 <= v,
        v < (r1 + 1) * (r1 + 1),
        0 <= r2,
        r2 * r2 <= v,
        v < (r2 + 1) * (r2 + 1),
    ensures
        r1 == r2,
{
}

/// Every nonnegative integer has a square-root floor, so `isqrt_spec`
/// denotes one.
proof fn lemma_isqrt_exists(v: int)
    requires
        v >= 0,
    ensures
        is_isqrt(isqrt_spec(v), v),
    decreases v,
{
    if v == 0 {
        assert(is_isqrt(0, 0)) by (nonlinear_arith);
    } else {
        lemma_isqrt_exists(v - 1);
        let r = isqrt_spec(v - 1);
        if v < (r + 1) * (r + 1) {
            assert(is_isqrt(r, v));
        } else {
            assert(is_isqrt(r + 1, v)) by (nonlinear_arith)
                requires
                    0 <= r,
                    r * r <= v - 1,
                    v - 1 < (r + 1) * (r + 1),
                    v >= (r + 1) * (r + 1),
            ;
        }
        assert(exists|k: int| is_isqrt(k, v));
    }
}

/// A witness pins down `isqrt_spec`.
proof fn lemma_isqrt_agrees(r: int, v: int)
    requires
        is_isqrt(r, v),
    ensures
        isqrt_spec(v) == r,
{
    let rr = isqrt_spec(v);
    assert(is_isqrt(rr, v));
    lemma_isqrt_unique(rr, r, v);
}

/// Floor of the square root by binary search.
fn isqrt(v: u128) -> (r: u128)
    requires
        v <= 100_000_000,
    ensures
        is_isqrt(r as int, v as int),
        r as int == isqrt_spec(v as int),
        r <= 10_000,
{
    let mut lo: u128 = 0;
    let mut hi: u128 = 10_001;
    assert(v < 10_001 * 10_001);
    while hi - lo > 1
        invariant
            lo < hi <= 10_001,
            lo * lo <= v,
            v < hi * hi,
        decreases hi - lo,
    {
        let mid: u128 = lo + (hi - lo) / 2;
        assert(lo < mid < hi);
        assert(mid * mid <= 10_001 * 10_001) by (nonlinear_arith)
            requires
                mid <= 10_001,
        ;
        if mid * mid <= v {
            lo = mid;
        } else {
            hi = mid;
        }
    }
    proof {
        assert(is_isqrt(lo as int, v as int));
        lemma_isqrt_agrees(lo as int, v as int);
        assert(lo * lo <= 100_000_000);
        assert(lo <= 10_000) by (nonlinear_arith)
            requires
                lo * lo <= 100_000_000,
        ;
    }
    lo
}

/// Scaled square root of the grid position `i / m`.
fn sqrt_scaled(i: usize, m: usize) -> (k: i128)
    requires
        1 <= m <= 9_999,
        i <= m,
    ensures
        k == sqrt_num(i as int, m as int),
        0 <= k <= 10_000,
{
    let q: u128 = (i as u128) * 100_000_000 / (m as u128);
    proof {
        lemma_div_is_ordered((i as int) * 100_000_000, (m as int) * 100_000_000, m as int);
        lemma_div_multiples_vanish(100_000_000, m as int);
        assert((m as int) * 100_000_000 == (m as int) * 100_000_000int);
        assert(q <= 100_000_000);
    }
    let r: u128 = isqrt(q);
    proof {
        assert((i as int) * (SCALE as int) * (SCALE as int) == (i as int) * 100_000_000);
    }
    r as i128
}

/// Evaluates the numerator of the thickness polynomial exactly.
fn poly_num_exec(i: usize, m: usize, k: i128) -> (pn: i128)
    requires
        1 <= m <= 9_999,
        i <= m,
        0 <= k <= 10_000,
    ensures
        pn == poly_num(i as int, m as int, k as int),
        -2_000_000_000_000_000_000_000_000 <= pn <= 2_000_000_000_000_000_000_000_000,
{
    let im: i128 = i as i128;
    let mm: i128 = m as i128;
    assert(0 <= im * mm <= 100_000_000 && 0 <= mm * mm <= 100_000_000 && 0 <= im * im <= mm * mm)
        by (nonlinear_arith)
        requires
            0 <= im <= mm <= 9_999,
    ;
    let m2: i128 = mm * mm;
    let i2: i128 = im * im;
    assert(0 <= m2 * mm <= 1_000_000_000_000 && 0 <= i2 * im <= m2 * mm) by (nonlinear_arith)
        requires
            0 <= im <= mm <= 9_999,
            m2 == mm * mm,
            i2 == im * im,
            0 <= i2 <= m2 <= 100_000_000,
    ;
    let m3: i128 = m2 * mm;
    let i3: i128 = i2 * im;
    assert(0 <= m3 * mm <= 10_000_000_000_000_000 && 0 <= i3 * im <= m3 * mm) by (nonlinear_arith)
        requires
            0 <= im <= mm <= 9_999,
            m3 == m2 * mm,
            i3 == i2 * im,
            m2 == mm * mm,
            i2 == im * im,
            0 <= i2 <= m2 <= 100_000_000,
            0 <= i3 <= m3 <= 1_000_000_000_000,
    ;
    let m4: i128 = m3 * mm;
    let i4: i128 = i3 * im;
    assert(0 <= 2969 * k * m4 <= 400_000_000_000_000_000_000_000 && 0 <= 1260 * 10_000 * im * m3
        <= 400_000_000_000_000_000_000_000 && 0 <= 3516 * 10_000 * i2 * m2
        <= 400_000_000_000_000_000_000_000 && 0 <= 2843 * 10_000 * i3 * mm
        <= 400_000_000_000_000_000_000_000 && 0 <= 1036 * 10_000 * i4
        <= 400_000_000_000_000_000_000_000 && 0 <= 2969 * k <= 100_000_000 && 0 <= 1260 * 10_000
        * im <= 1_000_000_000_000 && 0 <= 3516 * 10_000 * i2 <= 10_000_000_000_000_000 && 0 <= 2843
        * 10_000 * i3 <= 100_000_000_000_000_000_000) by (nonlinear_arith)
        requires
            0 <= k <= 10_000,
            0 <= im <= mm <= 9_999,
            0 <= i2 <= m2 <= 100_000_000,
            0 <= i3 <= m3 <= 1_000_000_000_000,
            0 <= i4 <= m4 <= 10_000_000_000_000_000,
    ;
    let t0: i128 = 2969 * k * m4;
    let t1: i128 = 1260 * 10_000 * im * m3;
    let t2: i128 = 3516 * 10_000 * i2 * m2;
    let t3: i128 = 2843 * 10_000 * i3 * mm;
    let t4: i128 = 1036 * 10_000 * i4;
    let pn: i128 = t0 - t1 - t2 + t3 - t4;
    proof {
        assert(pn == poly_num(i as int, m as int, k as int)) by (nonlinear_arith)
            requires
                im == i as int,
                mm == m as int,
                m2 == mm * mm,
                m3 == m2 * mm,
                m4 == m3 * mm,
                i2 == im * im,
                i3 == i2 * im,
                i4 == i3 * im,
                t0 == 2969 * k * m4,
                t1 == 1260 * 10_000 * im * m3,
                t2 == 3516 * 10_000 * i2 * m2,
                t3 == 2843 * 10_000 * i3 * mm,
                t4 == 1036 * 10_000 * i4,
                pn == t0 - t1 - t2 + t3 - t4,
                poly_num(i as int, m as int, k as int) == 2969 * k * (mm * mm * mm * mm) - 1260 * (
                SCALE as int) * im * (mm * mm * mm) - 3516 * (SCALE as int) * (im * im) * (mm * mm)
                    + 2843 * (SCALE as int) * (im * im * im) * mm - 1036 * (SCALE as int) * (im * im
                    * im * im),
        ;
    }
    pn
}

/// Why a profile could not be generated.
#[derive(Clone, Copy, Debug, PartialEq, Eq, Structural)]
pub enum AirfoilError {
    /// The tail of the thickness code is not a decimal literal.
    ParseError,
    /// Fewer than two sample points were requested.
    InvalidResolutionError,
}

/// A materialized airfoil profile: chordwise positions with lower and
/// upper surface offsets, walked by a one-shot forward cursor.
pub struct NacaAirfoil {
    // X-positions along the chord
    x: Vec<Rat>,
    // Y-positions of the lower surface
    yl: Vec<Rat>,
    // Y-positions of the upper surface
    yu: Vec<Rat>,
    // Current index of the cursor
    idx: usize,
}

impl NacaAirfoil {
    /// The chordwise positions.
    pub closed spec fn xs(self) -> Seq<Rat> {
        self.x@
    }

    /// The lower-surface offsets.
    pub closed spec fn lowers(self) -> Seq<Rat> {
        self.yl@
    }

    /// The upper-surface offsets.
    pub closed spec fn uppers(self) -> Seq<Rat> {
        self.yu@
    }

    /// The cursor position: how many points have been handed out.
    pub closed spec fn cursor(self) -> int {
        self.idx as int
    }

    /// The three sequences run in parallel and the cursor is inside them.
    pub open spec fn wf(self) -> bool {
        &&& self.lowers().len() == self.xs().len()
        &&& self.uppers().len() == self.xs().len()
        &&& 0 <= self.cursor() <= self.xs().len()
    }

    /// The number of points of the profile.
    pub fn len(&self) -> (n: usize)
        ensures
            n == self.xs().len(),
    {
        self.x.len()
    }

    /// The point `(x, y_lower, y_upper)` at index `i`, independent of the
    /// cursor; `None` past the end.
    pub fn point(&self, i: usize) -> (item: Option<(Rat, Rat, Rat)>)
        requires
            self.wf(),
        ensures
            i < self.xs().len() ==> item == Some(
                (self.xs()[i as int], self.lowers()[i as int], self.uppers()[i as int]),
            ),
            i >= self.xs().len() ==> item is None,
    {
        if i < self.x.len() {
            Some((self.x[i], self.yl[i], self.yu[i]))
        } else {
            None
        }
    }

    /// Hands out the next `(x, y_lower, y_upper)` triple and advances the
    /// cursor; `None` once every point has been consumed.
    pub fn next(&mut self) -> (item: Option<(Rat, Rat, Rat)>)
        requires
            old(self).wf(),
        ensures
            final (self).wf(),
            final (self).xs() == old(self).xs(),
            final (self).lowers() == old(self).lowers(),
            final (self).uppers() == old(self).uppers(),
            old(self).cursor() < old(self).xs().len() ==> item == Some(
                (
                    old(self).xs()[old(self).cursor()],
                    old(self).lowers()[old(self).cursor()],
                    old(self).uppers()[old(self).cursor()],
                ),
            ) && final (self).cursor() == old(self).cursor() + 1,
            old(self).cursor() == old(self).xs().len() ==> item is None && final (self).cursor()
                == old(self).cursor(),
    {
        if self.idx == self.x.len() {
            return None;
        }
        self.idx = self.idx + 1;
        Some((self.x[self.idx - 1], self.yl[self.idx - 1], self.yu[self.idx - 1]))
    }
}

/// Generates the profile of a symmetric NACA 4-digit airfoil.
///
/// The thickness value `t` is read from the characters of `naca_code`
/// after the first two, taken literally as a decimal number (no division
/// by 100). The chordwise grid is `resolution` evenly spaced positions
/// from 0 to `chord_length`, so the normalized position `x[i] / chord`
/// at index `i` of `m = resolution - 1` intervals is exactly `i / m`; at
/// each position the upper offset is the thickness polynomial above and
/// the lower offset is its exact negation.
///
/// Fails with `ParseError` when the code tail is not a decimal literal,
/// and with `InvalidResolutionError` when fewer than two points are
/// requested. A chord of value zero has no well-defined normalized
/// positions, so a nonzero chord numerator is required; the sign of the
/// chord is unrestricted and a negative chord mirrors the profile.
pub fn naca_airfoil_series4(naca_code: &str, chord_length: Rat, resolution: usize) -> (res: Result<
    NacaAirfoil,
    AirfoilError,
>)
    requires
        2 <= naca_code@.len() <= 8,
        chord_length.wf(),
        rat_bounded(chord_length, 1_000_000),
        chord_length.num != 0,
        resolution <= 10_000,
    ensures
        res is Ok <==> (valid_decimal(naca_code@.skip(2)) && resolution >= 2),
        res == Err::<NacaAirfoil, AirfoilError>(AirfoilError::ParseError) <==> !valid_decimal(
            naca_code@.skip(2),
        ),
        res == Err::<NacaAirfoil, AirfoilError>(AirfoilError::InvalidResolutionError) <==> (
        valid_decimal(naca_code@.skip(2)) && resolution < 2),
        res is Ok ==> ({
            let p = res->Ok_0;
            let tail = naca_code@.skip(2);
            let m = resolution - 1;
            &&& p.wf()
            &&& p.cursor() == 0
            &&& p.xs().len() == resolution
            &&& p.lowers().len() == resolution
            &&& p.uppers().len() == resolution
            &&& forall|i: int| 0 <= i < resolution ==> (#[trigger] p.xs()[i]).wf()
            &&& forall|i: int|
                0 <= i < resolution ==> rat_is(
                    #[trigger] p.xs()[i],
                    i * chord_length.num,
                    chord_length.den * m,
                )
            &&& p.xs()[m] == chord_length
            &&& p.xs()[0].num == 0
            &&& forall|i: int|
                0 <= i < resolution ==> (#[trigger] p.uppers()[i]).num == y_num(
                    dec_num(tail),
                    chord_length.num as int,
                    i,
                    m,
                ) && p.uppers()[i].den == y_den(dec_den(tail), chord_length.den as int, m)
            &&& forall|i: int| 0 <= i < resolution ==> (#[trigger] p.uppers()[i]).wf()
            &&& forall|i: int|
                0 <= i < resolution ==> (#[trigger] p.lowers()[i]).num == -p.uppers()[i].num
                    && p.lowers()[i].den == p.uppers()[i].den
            &&& p.uppers()[0].num == 0
            &&& p.lowers()[0].num == 0
        }),
{
    let ghost tail = naca_code@.skip(2);
    // Get thickness from code
    let parsed = parse_decimal(naca_code, 2);
    let (pt, qt): (i128, i128) = match parsed {
        Ok(v) => v,
        Err(_) => {
            return Err(AirfoilError::ParseError);
        },
    };
    if resolution < 2 {
        return Err(AirfoilError::InvalidResolutionError);
    }
    let m: usize = resolution - 1;
    // Create the x vector from 0 to the chord length
    let origin: Rat = Rat::new(0, 1);
    let x: Vec<Rat> = crate::sample::linspace(origin, chord_length, resolution);
    let pc: i128 = chord_length.num;
    let qc: i128 = chord_length.den;
    // Common denominator of all surface offsets
    let mm: i128 = m as i128;
    assert(1 <= mm * mm <= 100_000_000 && mm * mm * (mm * mm) == mm * mm * mm * mm && 1 <= mm * mm
        * (mm * mm) <= 10_000_000_000_000_000) by (nonlinear_arith)
        requires
            1 <= mm <= 9_999,
    ;
    let m4: i128 = mm * mm * (mm * mm);
    assert(1 <= qt * qc <= 100_000_000_000 && qt * qc * (100_000_000 * m4) == y_den(
        qt as int,
        qc as int,
        mm as int,
    ) && 1 <= qt * qc * (100_000_000 * m4)
        <= 1_000_000_000_000_000_000_000_000_000_000_000_000) by (nonlinear_arith)
        requires
            1 <= qt <= 100_000,
            1 <= qc <= 1_000_000,
            1 <= m4 <= 10_000_000_000_000_000,
            m4 == mm * mm * mm * mm,
            1 <= mm,
            y_den(qt as int, qc as int, mm as int) == qt * qc * (10_000 * (SCALE as int) * (mm * mm
                * mm * mm)),
    ;
    let den_all: i128 = qt * qc * (100_000_000 * m4);
    let mut yu: Vec<Rat> = Vec::new();
    let mut yl: Vec<Rat> = Vec::new();
    let mut i: usize = 0;
    while i < resolution
        invariant
            2 <= resolution <= 10_000,
            m == resolution - 1,
            mm == m as i128,
            0 <= i <= resolution,
            -1_000_000 <= pc <= 1_000_000,
            pc != 0,
            1 <= qc <= 1_000_000,
            0 <= pt < 1_000_000,
            1 <= qt <= 100_000,
            den_all == y_den(qt as int, qc as int, m as int),
            1 <= den_all <= 1_000_000_000_000_000_000_000_000_000_000_000_000,
            yu@.len() == i,
            yl@.len() == i,
            forall|t: int|
                0 <= t < i ==> (#[trigger] yu@[t]).num == y_num(pt as int, pc as int, t, m as int)
                    && yu@[t].den == den_all,
            forall|t: int|
                0 <= t < i ==> (#[trigger] yl@[t]).num == -yu@[t].num && yl@[t].den == yu@[t].den,
        decreases resolution - i,
    {
        let k: i128 = sqrt_scaled(i, m);
        let pn: i128 = poly_num_exec(i, m, k);
        assert(-5_000_000_000_000 <= 5 * pt * pc <= 5_000_000_000_000 && -(
        10_000_000_000_000_000_000_000_000_000_000_000_000int) <= 5 * pt * pc * pn
            <= 10_000_000_000_000_000_000_000_000_000_000_000_000int) by (nonlinear_arith)
            requires
                0 <= pt < 1_000_000,
                -1_000_000 <= pc <= 1_000_000,
                -2_000_000_000_000_000_000_000_000 <= pn <= 2_000_000_000_000_000_000_000_000,
        ;
        let ynum: i128 = 5 * pt * pc * pn;
        yu.push(Rat { num: ynum, den: den_all });
        yl.push(Rat { num: -ynum, den: den_all });
        i = i + 1;
    }
    let profile = NacaAirfoil { x, yl, yu, idx: 0 };
    proof {
        lemma_leading_edge_zero(pt as int, pc as int, m as int);
        assert forall|j: int| 0 <= j < resolution implies rat_is(
            #[trigger] profile.xs()[j],
            j * pc,
            qc * (resolution - 1),
        ) by {
            if j == 0 {
                assert(profile.xs()[0] == origin);
                assert(origin.num * (qc * (resolution - 1)) == (j * pc) * origin.den)
                    by (nonlinear_arith)
                    requires
                        j == 0,
                        origin.num == 0,
                        origin.den == 1,
                ;
            } else if j < resolution - 1 {
                assert(profile.xs()[j].num == crate::sample::grid_num(
                    origin,
                    chord_length,
                    resolution as int,
                    j,
                ));
                assert(profile.xs()[j].num == j * pc && profile.xs()[j].den == qc * (resolution
                    - 1));
            } else {
                assert(profile.xs()[j] == chord_length);
                assert(pc * (qc * (resolution - 1)) == (j * pc) * qc) by (nonlinear_arith)
                    requires
                        j == resolution - 1,
                ;
            }
        }
    }
    Ok(profile)
}

/// Law: the scaled square root used by the thickness formula is the
/// exact floor of `SCALE` times the square root of the normalized
/// position `i / m`: with `k = sqrt_num(i, m)`, the cross-multiplied
/// inequalities below say `(k / SCALE)^2 <= i / m < ((k + 1) / SCALE)^2`.
pub proof fn lemma_sqrt_num_brackets(i: int, m: int)
    requires
        0 <= i <= m,
        1 <= m,
    ensures
        0 <= sqrt_num(i, m),
        sqrt_num(i, m) * sqrt_num(i, m) * m <= i * (SCALE as int) * (SCALE as int),
        (sqrt_num(i, m) + 1) * (sqrt_num(i, m) + 1) * m > i * (SCALE as int) * (SCALE as int),
{
    let s2 = i * (SCALE as int) * (SCALE as int);
    assert(s2 == i * 100_000_000);
    assert(s2 >= 0);
    let q = s2 / m;
    vstd::arithmetic::div_mod::lemma_fundamental_div_mod(s2, m);
    vstd::arithmetic::div_mod::lemma_mod_bound(s2, m);
    assert(q >= 0) by (nonlinear_arith)
        requires
            s2 == m * q + s2 % m,
            0 <= s2 % m < m,
            s2 >= 0,
            m >= 1,
    ;
    lemma_isqrt_exists(q);
    let k = sqrt_num(i, m);
    assert(is_isqrt(k, q));
    assert(k * k * m <= s2 && (k + 1) * (k + 1) * m > s2) by (nonlinear_arith)
        requires
            0 <= k,
            k * k <= q,
            q < (k + 1) * (k + 1),
            s2 == m * q + s2 % m,
            0 <= s2 % m < m,
            m >= 1,
    ;
}

/// Law: doubling the chord length while the code and the resolution stay
/// fixed scales every chordwise position and every surface offset by
/// exactly 2. `c2` is any chord whose value is twice the value of `c1`;
/// the ensured cross-multiplied equalities say that the grid position
/// and the offset generated for `c2` at index `i` equal twice those
/// generated for `c1`, as rational values.
#[verifier::rlimit(100)]
pub proof fn lemma_scale_sensitivity(tail: Seq<char>, c1: Rat, c2: Rat, n: int, i: int)
    requires
        c1.wf(),
        c2.wf(),
        c2.num * c1.den == 2 * c1.num * c2.den,
        2 <= n,
        0 <= i < n,
    ensures
        (i * c2.num) * (c1.den * (n - 1)) == (2 * (i * c1.num)) * (c2.den * (n - 1)),
        y_num(dec_num(tail), c2.num as int, i, n - 1) * y_den(dec_den(tail), c1.den as int, n - 1)
            == (2 * y_num(dec_num(tail), c1.num as int, i, n - 1)) * y_den(
            dec_den(tail),
            c2.den as int,
            n - 1,
        ),
{
    let t = dec_num(tail);
    let d = dec_den(tail);
    let p = poly_num(i, n - 1, sqrt_num(i, n - 1));
    let pd = poly_den(n - 1);
    assert((i * c2.num) * (c1.den * (n - 1)) == (2 * (i * c1.num)) * (c2.den * (n - 1)))
        by (nonlinear_arith)
        requires
            c2.num * c1.den == 2 * c1.num * c2.den,
    ;
    let k5 = 5 * t * p;
    let l2 = d * pd;
    assert(5 * t * c2.num * p == k5 * c2.num && 5 * t * c1.num * p == k5 * c1.num)
        by (nonlinear_arith)
        requires
            k5 == 5 * t * p,
    ;
    assert(d * c1.den * pd == l2 * c1.den && d * c2.den * pd == l2 * c2.den) by (nonlinear_arith)
        requires
            l2 == d * pd,
    ;
    assert((k5 * c2.num) * (l2 * c1.den) == (k5 * l2) * (c2.num * c1.den)) by (nonlinear_arith);
    assert((2 * (k5 * c1.num)) * (l2 * c2.den) == (k5 * l2) * (2 * c1.num * c2.den))
        by (nonlinear_arith);
    assert((k5 * l2) * (c2.num * c1.den) == (k5 * l2) * (2 * c1.num * c2.den));
}

/// At the leading edge the position and both offsets vanish: the scaled
/// square root of 0 is 0 and every polynomial term carries a factor of
/// the position or of the root.
pub proof fn lemma_leading_edge_zero(t_num: int, c_num: int, m: int)
    requires
        m >= 1,
    ensures
        sqrt_num(0, m) == 0,
        poly_num(0, m, 0) == 0,
        y_num(t_num, c_num, 0, m) == 0,
{
    lemma_div_of0(m);
    assert((0 * (SCALE as int) * (SCALE as int)) / m == 0);
    assert(is_isqrt(0, 0));
    lemma_isqrt_agrees(0, 0);
}

} // verus!
