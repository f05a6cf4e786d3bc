//! The solver itself.

use vstd::prelude::*;
use crate::algebra::lemma_det_nonnegative;
use crate::laws::lemma_solvable_iff_not_coplanar;
use crate::model::{
    admissible, coplanar, in_range, normal_of, row_of, rows, solution, Fraction, Normal, Point,
    Row, COORD_LIMIT, MAX_REFERENCES, MIN_REFERENCES, SQUARED_DISTANCE_LIMIT,
};

verus! {

/// An estimated position with rational coordinates
/// `(x / scale, y / scale, z / scale)`. What the solver hands out has a
/// positive `scale`.
#[derive(Clone, Copy, Debug, PartialEq, Eq)]
pub struct Estimate {
    pub x: i128,
    pub y: i128,
    pub z: i128,
    pub scale: i128,
}

impl View for Estimate {
    type V = Fraction;

    open spec fn view(&self) -> Fraction {
        Fraction { x: self.x as int, y: self.y as int, z: self.z as int, scale: self.scale as int }
    }
}

/// `estimate` is the outcome that the input calls for: the solution of the
/// normal equations where there is one, and nothing where there is none.
pub open spec fn is_outcome(estimate: Option<Estimate>, refs: Seq<Point>, sq: Seq<u64>) -> bool {
    match estimate {
        Some(e) => solution(refs, sq) == Some(e@),
        None => solution(refs, sq) is None,
    }
}

/// Tells whether `trilaterate` accepts the input.
pub fn is_admissible(references: &[Point], squared_distances: &[u64]) -> (ok: bool)
    ensures
        ok == admissible(references@, squared_distances@),
{
    let len: usize = references.len();
    if len != squared_distances.len() || len < MIN_REFERENCES || len > MAX_REFERENCES {
        return false;
    }
    let mut i: usize = 0;
    while i < len
        invariant
            0 <= i <= len,
            len == references@.len(),
            len == squared_distances@.len(),
            forall|j: int| 0 <= j < i ==> in_range(#[trigger] references@[j]),
            forall|j: int| 0 <= j < i ==> #[trigger] squared_distances@[j] <= SQUARED_DISTANCE_LIMIT,
        decreases len - i,
    {
        let p: Point = references[i];
        if p.x < -COORD_LIMIT || p.x > COORD_LIMIT || p.y < -COORD_LIMIT || p.y > COORD_LIMIT
            || p.z < -COORD_LIMIT || p.z > COORD_LIMIT {
            return false;
        }
        if squared_distances[i] > SQUARED_DISTANCE_LIMIT {
            return false;
        }
        i += 1;
    }
    true
}

/// Running sums of the normal equations.
struct Sums {
    xx: i128,
    xy: i128,
    xz: i128,
    yy: i128,
    yz: i128,
    zz: i128,
    xc: i128,
    yc: i128,
    zc: i128,
}

impl View for Sums {
    type V = Normal;

    closed spec fn view(&self) -> Normal {
        Normal {
            xx: self.xx as int,
            xy: self.xy as int,
            xz: self.xz as int,
            yy: self.yy as int,
            yz: self.yz as int,
            zz: self.zz as int,
            xc: self.xc as int,
            yc: self.yc as int,
            zc: self.zc as int,
        }
    }
}

impl Sums {
    /// Every sum of squares is within `k * s`, every sum against the
    /// right-hand side within `k * v`.
    spec fn within(&self, k: int, s: int, v: int) -> bool {
        &&& -(k * s) <= self.xx <= k * s
        &&& -(k * s) <= self.xy <= k * s
        &&& -(k * s) <= self.xz <= k * s
        &&& -(k * s) <= self.yy <= k * s
        &&& -(k * s) <= self.yz <= k * s
        &&& -(k * s) <= self.zz <= k * s
        &&& -(k * v) <= self.xc <= k * v
        &&& -(k * v) <= self.yc <= k * v
        &&& -(k * v) <= self.zc <= k * v
    }
}

/// The product of two factors, each within its own limit.
fn product(a: i128, b: i128, Ghost(la): Ghost<int>, Ghost(lb): Ghost<int>) -> (r: i128)
    requires
        -la <= a <= la,
        -lb <= b <= lb,
        la * lb <= i128::MAX,
    ensures
        r == a * b,
        -(la * lb) <= r <= la * lb,
{
    proof {
        assert(-(la * lb) <= a * b <= la * lb) by (nonlinear_arith)
            requires
                -la <= a <= la,
                -lb <= b <= lb,
        ;
    }
    a * b
}

/// The normal equations of all rows, summed in the order of the references.
///
/// An offset from the pivot is within `2^13`, so a product of two is within
/// `2^26`, a row's right-hand side within `2^29` and its product with an
/// offset within `2^42`. With at most `2^9` rows the sums stay within `2^35`
/// and `2^51`.
fn accumulate(references: &[Point], squared_distances: &[u64]) -> (s: Sums)
    requires
        admissible(references@, squared_distances@),
    ensures
        s@ == normal_of(rows(references@, squared_distances@)),
        s.within(0x200, 0x400_0000, 0x400_0000_0000),
{
    let len: usize = references.len();
    let pivot: Point = references[0];
    let pivot_sq: i128 = squared_distances[0] as i128;
    let mut s = Sums { xx: 0, xy: 0, xz: 0, yy: 0, yz: 0, zz: 0, xc: 0, yc: 0, zc: 0 };
    let ghost all = rows(references@, squared_distances@);
    let mut i: usize = 1;
    while i < len
        invariant
            1 <= i <= len,
            len == references@.len(),
            admissible(references@, squared_distances@),
            pivot == references@[0],
            pivot_sq == squared_distances@[0],
            all == rows(references@, squared_distances@),
            s@ == normal_of(all.take(i - 1)),
            s.within(i - 1, 0x400_0000, 0x400_0000_0000),
        decreases len - i,
    {
        let p: Point = references[i];
        assert(in_range(references@[i as int]));
        assert(in_range(references@[0]));
        assert(squared_distances@[i as int] <= SQUARED_DISTANCE_LIMIT);
        assert(squared_distances@[0] <= SQUARED_DISTANCE_LIMIT);
        let ax: i128 = p.x as i128 - pivot.x as i128;
        let ay: i128 = p.y as i128 - pivot.y as i128;
        let az: i128 = p.z as i128 - pivot.z as i128;
        let xx: i128 = product(ax, ax, Ghost(0x2000), Ghost(0x2000));
        let xy: i128 = product(ax, ay, Ghost(0x2000), Ghost(0x2000));
        let xz: i128 = product(ax, az, Ghost(0x2000), Ghost(0x2000));
        let yy: i128 = product(ay, ay, Ghost(0x2000), Ghost(0x2000));
        let yz: i128 = product(ay, az, Ghost(0x2000), Ghost(0x2000));
        let zz: i128 = product(az, az, Ghost(0x2000), Ghost(0x2000));
        let c: i128 = pivot_sq - squared_distances[i] as i128 + (xx + yy + zz);
        let xc: i128 = product(ax, c, Ghost(0x2000), Ghost(0x2000_0000));
        let yc: i128 = product(ay, c, Ghost(0x2000), Ghost(0x2000_0000));
        let zc: i128 = product(az, c, Ghost(0x2000), Ghost(0x2000_0000));
        proof {
            let k: int = i - 1;
            assert(all.take(k + 1).drop_last() =~= all.take(k));
            assert(all.take(k + 1).last() == all[k]);
            assert(all[k] == row_of(pivot, pivot_sq as int, p, squared_distances@[i as int] as int));
            assert(all[k] == Row { ax: ax as int, ay: ay as int, az: az as int, c: c as int });
            assert(normal_of(all.take(k + 1)) == normal_of(all.take(k)).plus(all[k]));
            assert((k + 1) * 0x400_0000 == k * 0x400_0000 + 0x400_0000) by (nonlinear_arith);
            assert((k + 1) * 0x400_0000_0000 == k * 0x400_0000_0000 + 0x400_0000_0000) by (nonlinear_arith);
            assert(k * 0x400_0000 <= 0x200 * 0x400_0000) by (nonlinear_arith)
                requires k <= 0x200;
            assert(k * 0x400_0000_0000 <= 0x200 * 0x400_0000_0000) by (nonlinear_arith)
                requires k <= 0x200;
        }
        s = Sums {
            xx: s.xx + xx,
            xy: s.xy + xy,
            xz: s.xz + xz,
            yy: s.yy + yy,
            yz: s.yz + yz,
            zz: s.zz + zz,
            xc: s.xc + xc,
            yc: s.yc + yc,
            zc: s.zc + zc,
        };
        i += 1;
    }
    proof {
        assert(all.take(len - 1) =~= all);
        let k: int = len - 1;
        assert(k * 0x400_0000 <= 0x200 * 0x400_0000) by (nonlinear_arith)
            requires 0 <= k <= 0x200;
        assert(k * 0x400_0000_0000 <= 0x200 * 0x400_0000_0000) by (nonlinear_arith)
            requires 0 <= k <= 0x200;
    }
    s
}

/// Estimates a position from reference points and the squared distances
/// measured from each of them, by linear least squares around the first
/// reference. The result is the exact solution of the normal equations, and
/// `None` exactly where their matrix is singular, which it is exactly where
/// the references lie in one plane.
pub fn trilaterate(references: &[Point], squared_distances: &[u64]) -> (estimate: Option<Estimate>)
    requires
        admissible(references@, squared_distances@),
    ensures
        is_outcome(estimate, references@, squared_distances@),
        estimate is None <==> coplanar(references@),
        estimate matches Some(e) ==> e.scale > 0,
{
    proof {
        lemma_solvable_iff_not_coplanar(references@, squared_distances@);
        lemma_det_nonnegative(rows(references@, squared_distances@));
    }
    let s: Sums = accumulate(references, squared_distances);
    // Cofactors are within 2^71, the determinant within 3 * 2^106, the
    // numerators within 3 * 2^122 and the coordinates below 2^125.
    let pivot: Point = references[0];
    assert(in_range(references@[0]));
    let ghost n: Normal = s@;
    let ghost ls: int = 0x8_0000_0000;
    let ghost lv: int = 0x8_0000_0000_0000;
    let ghost lc: int = 0x80_0000_0000_0000_0000;
    let cof_xx: i128 = product(s.yy, s.zz, Ghost(ls), Ghost(ls)) - product(s.yz, s.yz, Ghost(ls), Ghost(ls));
    let cof_xy: i128 = product(s.xz, s.yz, Ghost(ls), Ghost(ls)) - product(s.xy, s.zz, Ghost(ls), Ghost(ls));
    let cof_xz: i128 = product(s.xy, s.yz, Ghost(ls), Ghost(ls)) - product(s.xz, s.yy, Ghost(ls), Ghost(ls));
    let cof_yy: i128 = product(s.xx, s.zz, Ghost(ls), Ghost(ls)) - product(s.xz, s.xz, Ghost(ls), Ghost(ls));
    let cof_yz: i128 = product(s.xy, s.xz, Ghost(ls), Ghost(ls)) - product(s.xx, s.yz, Ghost(ls), Ghost(ls));
    let cof_zz: i128 = product(s.xx, s.yy, Ghost(ls), Ghost(ls)) - product(s.xy, s.xy, Ghost(ls), Ghost(ls));
    let det: i128 = product(s.xx, cof_xx, Ghost(ls), Ghost(lc)) + product(s.xy, cof_xy, Ghost(ls), Ghost(lc))
        + product(s.xz, cof_xz, Ghost(ls), Ghost(lc));
    assert(det == n.det());
    if det == 0 {
        return None;
    }
    let scale: i128 = 2 * det;
    let num_x: i128 = product(cof_xx, s.xc, Ghost(lc), Ghost(lv)) + product(cof_xy, s.yc, Ghost(lc), Ghost(lv))
        + product(cof_xz, s.zc, Ghost(lc), Ghost(lv));
    let num_y: i128 = product(cof_xy, s.xc, Ghost(lc), Ghost(lv)) + product(cof_yy, s.yc, Ghost(lc), Ghost(lv))
        + product(cof_yz, s.zc, Ghost(lc), Ghost(lv));
    let num_z: i128 = product(cof_xz, s.xc, Ghost(lc), Ghost(lv)) + product(cof_yz, s.yc, Ghost(lc), Ghost(lv))
        + product(cof_zz, s.zc, Ghost(lc), Ghost(lv));
    let ghost lx: int = 0x1000;
    let ghost ld: int = 0x3000_0000_0000_0000_0000_0000_0000;
    let x: i128 = product(pivot.x as i128, scale, Ghost(lx), Ghost(ld)) + num_x;
    let y: i128 = product(pivot.y as i128, scale, Ghost(lx), Ghost(ld)) + num_y;
    let z: i128 = product(pivot.z as i128, scale, Ghost(lx), Ghost(ld)) + num_z;
    Some(Estimate { x, y, z, scale })
}

/// Why an input is turned away.
#[derive(Clone, Copy, Debug, PartialEq, Eq)]
pub enum Rejection {
    /// There are not as many squared distances as references.
    LengthMismatch,
    /// There are fewer than `MIN_REFERENCES` references.
    TooFewReferences,
    /// There are more than `MAX_REFERENCES` references.
    TooManyReferences,
    /// A coordinate or a squared distance is beyond its limit.
    OutOfRange,
}

/// The reason for which an input is turned away, if it is: the first that
/// holds, in the order of the variants.
pub open spec fn rejection(refs: Seq<Point>, sq: Seq<u64>) -> Option<Rejection> {
    if refs.len() != sq.len() {
        Some(Rejection::LengthMismatch)
    } else if refs.len() < MIN_REFERENCES {
        Some(Rejection::TooFewReferences)
    } else if refs.len() > MAX_REFERENCES {
        Some(Rejection::TooManyReferences)
    } else if !admissible(refs, sq) {
        Some(Rejection::OutOfRange)
    } else {
        None
    }
}

/// `trilaterate` for any input: an input that it does not admit is turned
/// away with the reason, and every other one is solved.
pub fn try_trilaterate(references: &[Point], squared_distances: &[u64]) -> (outcome: Result<
    Option<Estimate>,
    Rejection,
>)
    ensures
        match outcome {
            Ok(estimate) => {
                &&& rejection(references@, squared_distances@) is None
                &&& is_outcome(estimate, references@, squared_distances@)
                &&& estimate is None <==> coplanar(references@)
                &&& estimate matches Some(e) ==> e.scale > 0
            },
            Err(reason) => rejection(references@, squared_distances@) == Some(reason),
        },
{
    let len: usize = references.len();
    if len != squared_distances.len() {
        return Err(Rejection::LengthMismatch);
    }
    if len < MIN_REFERENCES {
        return Err(Rejection::TooFewReferences);
    }
    if len > MAX_REFERENCES {
        return Err(Rejection::TooManyReferences);
    }
    if !is_admissible(references, squared_distances) {
        return Err(Rejection::OutOfRange);
    }
    Ok(trilaterate(references, squared_distances))
}

} // verus!
