//! The solution of the normal equations is the best fit: no offset leaves a
//! smaller sum of squared residuals.

use vstd::prelude::*;
use crate::algebra::{
    apply, lemma_apply_step, lemma_solves_normal_equations, lemma_sum_of_squares_zero, row_dot,
    sum_of_squares,
};
use crate::model::{normal_of, rows, solution, Fraction, Normal, Point, Row};

verus! {

/// `2 * s` times what a row leaves over at the offset `(wx, wy, wz) / s`:
/// the row asks for `2 * (ax, ay, az) . offset == c`.
pub open spec fn row_residual(r: Row, wx: int, wy: int, wz: int, s: int) -> int {
    2 * row_dot(r, wx, wy, wz) - s * r.c
}

/// `4 * s^2` times the sum of the squared residuals of the system
/// `(ax, ay, az) . offset == c / 2` at the offset `(wx, wy, wz) / s`.
pub open spec fn residual(rs: Seq<Row>, wx: int, wy: int, wz: int, s: int) -> int
    decreases rs.len(),
{
    if rs.len() == 0 {
        0
    } else {
        residual(rs.drop_last(), wx, wy, wz, s) + row_residual(rs.last(), wx, wy, wz, s)
            * row_residual(rs.last(), wx, wy, wz, s)
    }
}

/// The sum, over the rows, of a row's residual at one offset times its
/// product with a vector.
pub open spec fn cross(rs: Seq<Row>, ux: int, uy: int, uz: int, d: int, yx: int, yy: int, yz: int) -> int
    decreases rs.len(),
{
    if rs.len() == 0 {
        0
    } else {
        cross(rs.drop_last(), ux, uy, uz, d, yx, yy, yz) + row_residual(rs.last(), ux, uy, uz, d)
            * row_dot(rs.last(), yx, yy, yz)
    }
}

proof fn lemma_row_dot_combines(r: Row, d: int, wx: int, wy: int, wz: int, s: int, ux: int, uy: int, uz: int)
    ensures
        row_dot(r, d * wx - s * ux, d * wy - s * uy, d * wz - s * uz) == d * row_dot(r, wx, wy, wz)
            - s * row_dot(r, ux, uy, uz),
{
    broadcast use vstd::arithmetic::mul::group_mul_is_commutative_and_distributive;
    broadcast use vstd::arithmetic::mul::lemma_mul_is_associative;
}

proof fn lemma_square_of_shift(d: int, s: int, e: int, f: int, g: int)
    requires
        d * e == s * f + 2 * g,
    ensures
        (d * d) * (e * e) == (s * s) * (f * f) + (4 * s) * (f * g) + 4 * (g * g),
{
    let de = d * e;
    let sf = s * f;
    assert((d * d) * (e * e) == de * de) by (nonlinear_arith)
        requires
            de == d * e,
    ;
    assert((s * s) * (f * f) == sf * sf) by (nonlinear_arith)
        requires
            sf == s * f,
    ;
    assert((4 * s) * (f * g) == 4 * (sf * g)) by (nonlinear_arith)
        requires
            sf == s * f,
    ;
    assert(de * de == sf * sf + 4 * (sf * g) + 4 * (g * g)) by (nonlinear_arith)
        requires
            de == sf + 2 * g,
    ;
}

/// The residual at any offset, against the residual at another: they differ
/// by a cross term and by the squares of the rows against the difference of
/// the offsets.
pub proof fn lemma_residual_shift(
    rs: Seq<Row>,
    wx: int, wy: int, wz: int, s: int,
    ux: int, uy: int, uz: int, d: int,
)
    ensures
        ({
            let (yx, yy, yz) = (d * wx - s * ux, d * wy - s * uy, d * wz - s * uz);
            (d * d) * residual(rs, wx, wy, wz, s) == (s * s) * residual(rs, ux, uy, uz, d) + (4 * s)
                * cross(rs, ux, uy, uz, d, yx, yy, yz) + 4 * sum_of_squares(rs, yx, yy, yz)
        }),
    decreases rs.len(),
{
    let (yx, yy, yz) = (d * wx - s * ux, d * wy - s * uy, d * wz - s * uz);
    if rs.len() > 0 {
        let head = rs.drop_last();
        let r = rs.last();
        lemma_residual_shift(head, wx, wy, wz, s, ux, uy, uz, d);
        let e = row_residual(r, wx, wy, wz, s);
        let f = row_residual(r, ux, uy, uz, d);
        let g = row_dot(r, yx, yy, yz);
        lemma_row_dot_combines(r, d, wx, wy, wz, s, ux, uy, uz);
        let dw = row_dot(r, wx, wy, wz);
        let du = row_dot(r, ux, uy, uz);
        assert(d * e == s * f + 2 * g) by (nonlinear_arith)
            requires
                e == 2 * dw - s * r.c,
                f == 2 * du - d * r.c,
                g == d * dw - s * du,
        ;
        lemma_square_of_shift(d, s, e, f, g);
        let dd = d * d;
        let ss = s * s;
        let s4 = 4 * s;
        let r0 = residual(head, wx, wy, wz, s);
        let r1 = residual(head, ux, uy, uz, d);
        let c1 = cross(head, ux, uy, uz, d, yx, yy, yz);
        let q1 = sum_of_squares(head, yx, yy, yz);
        assert(dd * (r0 + e * e) == dd * r0 + dd * (e * e)) by (nonlinear_arith);
        assert(ss * (r1 + f * f) == ss * r1 + ss * (f * f)) by (nonlinear_arith);
        assert(s4 * (c1 + f * g) == s4 * c1 + s4 * (f * g)) by (nonlinear_arith);
    }
}

proof fn lemma_cross_step(
    mx: int, my: int, mz: int,
    vx: int, vy: int, vz: int,
    ax: int, ay: int, az: int, c: int,
    du: int, d: int,
    yx: int, yy: int, yz: int,
)
    ensures
        ({
            let g = ax * yx + ay * yy + az * yz;
            2 * ((mx + ax * du) * yx + (my + ay * du) * yy + (mz + az * du) * yz) - d * ((vx + ax
                * c) * yx + (vy + ay * c) * yy + (vz + az * c) * yz) == (2 * (mx * yx + my * yy
                + mz * yz) - d * (vx * yx + vy * yy + vz * yz)) + (2 * du - d * c) * g
        }),
{
    broadcast use vstd::arithmetic::mul::group_mul_is_commutative_and_distributive;
    broadcast use vstd::arithmetic::mul::lemma_mul_is_associative;
}

/// The cross term, by the normal equations: twice the matrix applied to the
/// offset, less `d` times the right-hand side, against the vector.
pub proof fn lemma_cross_by_normal(
    rs: Seq<Row>,
    ux: int, uy: int, uz: int, d: int,
    yx: int, yy: int, yz: int,
)
    ensures
        ({
            let n = normal_of(rs);
            let (mx, my, mz) = apply(n, ux, uy, uz);
            cross(rs, ux, uy, uz, d, yx, yy, yz) == 2 * (mx * yx + my * yy + mz * yz) - d * (n.xc
                * yx + n.yc * yy + n.zc * yz)
        }),
    decreases rs.len(),
{
    broadcast use vstd::arithmetic::mul::lemma_mul_is_commutative;
    if rs.len() > 0 {
        let head = rs.drop_last();
        let r = rs.last();
        lemma_cross_by_normal(head, ux, uy, uz, d, yx, yy, yz);
        let n = normal_of(head);
        let (mx, my, mz) = apply(n, ux, uy, uz);
        let du = row_dot(r, ux, uy, uz);
        lemma_apply_step(n.xx, n.xy, n.xz, r.ax, r, ux, uy, uz);
        lemma_apply_step(n.xy, n.yy, n.yz, r.ay, r, ux, uy, uz);
        lemma_apply_step(n.xz, n.yz, n.zz, r.az, r, ux, uy, uz);
        let m = normal_of(rs);
        assert(m == n.plus(r));
        assert(apply(m, ux, uy, uz) == (mx + r.ax * du, my + r.ay * du, mz + r.az * du));
        lemma_cross_step(mx, my, mz, n.xc, n.yc, n.zc, r.ax, r.ay, r.az, r.c, du, d, yx, yy, yz);
    } else {
        assert(normal_of(rs) == Normal::zero());
        assert(d * 0 == 0);
    }
}

pub proof fn lemma_cross_vanishes(det: int, vx: int, vy: int, vz: int, yx: int, yy: int, yz: int)
    ensures
        2 * ((det * vx) * yx + (det * vy) * yy + (det * vz) * yz) - (2 * det) * (vx * yx + vy * yy
            + vz * yz) == 0,
{
    broadcast use vstd::arithmetic::mul::group_mul_is_distributive;
    broadcast use vstd::arithmetic::mul::lemma_mul_is_associative;
}

/// Least squares: the numerators of the solution over twice the
/// determinant leave no larger a sum of squared residuals than any other
/// offset `(wx, wy, wz) / s` does. Both sums are brought to the common
/// denominator `4 * s^2 * (2 * det)^2`.
pub proof fn lemma_least_squares(rs: Seq<Row>, wx: int, wy: int, wz: int, s: int)
    ensures
        ({
            let n = normal_of(rs);
            let d = 2 * n.det();
            (d * d) * residual(rs, wx, wy, wz, s) >= (s * s) * residual(
                rs,
                n.num_x(),
                n.num_y(),
                n.num_z(),
                d,
            )
        }),
{
    let n = normal_of(rs);
    let d = 2 * n.det();
    let (ux, uy, uz) = (n.num_x(), n.num_y(), n.num_z());
    let (yx, yy, yz) = (d * wx - s * ux, d * wy - s * uy, d * wz - s * uz);
    lemma_residual_shift(rs, wx, wy, wz, s, ux, uy, uz, d);
    lemma_cross_by_normal(rs, ux, uy, uz, d, yx, yy, yz);
    lemma_solves_normal_equations(n);
    lemma_cross_vanishes(n.det(), n.xc, n.yc, n.zc, yx, yy, yz);
    assert(cross(rs, ux, uy, uz, d, yx, yy, yz) == 0);
    assert((4 * s) * 0 == 0);
    lemma_sum_of_squares_zero(rs, yx, yy, yz);
}

/// How badly the position `p` fits the measurements: `4 * p.scale^2` times
/// the sum, over the references after the pivot, of the squared residual of
/// the linearized sphere equation.
pub open spec fn misfit(refs: Seq<Point>, sq: Seq<u64>, p: Fraction) -> int {
    residual(
        rows(refs, sq),
        p.x - refs[0].x * p.scale,
        p.y - refs[0].y * p.scale,
        p.z - refs[0].z * p.scale,
        p.scale,
    )
}

/// The solution is the best fit: no position fits the measurements better
/// than it does. The two misfits are compared over their common denominator.
pub proof fn lemma_solution_is_best_fit(refs: Seq<Point>, sq: Seq<u64>, p: Fraction)
    requires
        refs.len() == sq.len(),
        refs.len() >= 4,
        solution(refs, sq) is Some,
    ensures
        ({
            let e = solution(refs, sq).unwrap();
            (e.scale * e.scale) * misfit(refs, sq, p) >= (p.scale * p.scale) * misfit(refs, sq, e)
        }),
{
    let o = refs[0];
    lemma_least_squares(
        rows(refs, sq),
        p.x - o.x * p.scale,
        p.y - o.y * p.scale,
        p.z - o.z * p.scale,
        p.scale,
    );
}

} // verus!
