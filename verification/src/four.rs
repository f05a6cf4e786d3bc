//! Four references: three equations for three unknowns. Where they can be
//! solved at all, the solution meets each of them exactly.

use vstd::prelude::*;
use crate::algebra::{
    is_permutation, lemma_normal_of_orthogonal_rows, lemma_null_vector,
    lemma_solves_normal_equations, quadratic, row_dot,
};
use crate::laws::{fits, fits_at, lemma_order_invariance_consistent};
use crate::model::{normal_of, rows, solution, Point, Row};
use crate::optimum::{cross, lemma_cross_by_normal, lemma_cross_vanishes, row_residual};

verus! {

/// The cross product of the offsets of two rows.
pub open spec fn cross_product(b: Row, c: Row) -> (int, int, int) {
    (b.ay * c.az - b.az * c.ay, b.az * c.ax - b.ax * c.az, b.ax * c.ay - b.ay * c.ax)
}

/// The triple product of the offsets of three rows: the determinant of the
/// matrix that they make.
pub open spec fn triple(a: Row, b: Row, c: Row) -> int {
    let n = cross_product(b, c);
    row_dot(a, n.0, n.1, n.2)
}

/// A cross product is orthogonal to both of its factors, and the triple
/// product does not change when its rows are rotated.
proof fn lemma_cross_product(a: Row, b: Row, c: Row)
    ensures
        ({
            let n = cross_product(b, c);
            row_dot(b, n.0, n.1, n.2) == 0 && row_dot(c, n.0, n.1, n.2) == 0
        }),
        triple(b, c, a) == triple(a, b, c),
        triple(c, a, b) == triple(a, b, c),
{
    broadcast use vstd::arithmetic::mul::group_mul_is_commutative_and_distributive;
    broadcast use vstd::arithmetic::mul::lemma_mul_is_associative;
}

/// A vector other than zero that is orthogonal to a row, and to every row
/// whose cross product with it is zero.
proof fn lemma_orthogonal_to_line(a: Row) -> (y: (int, int, int))
    requires
        a.ax != 0 || a.ay != 0 || a.az != 0,
    ensures
        y.0 != 0 || y.1 != 0 || y.2 != 0,
        row_dot(a, y.0, y.1, y.2) == 0,
        forall|b: Row| cross_product(a, b) == (0int, 0int, 0int) ==> row_dot(b, y.0, y.1, y.2) == 0,
{
    if a.ax != 0 || a.ay != 0 {
        let y = (-a.ay, a.ax, 0int);
        assert(a.ax * (-a.ay) + a.ay * a.ax + a.az * 0 == 0) by (nonlinear_arith);
        assert forall|b: Row| cross_product(a, b) == (0int, 0int, 0int) implies row_dot(
            b,
            y.0,
            y.1,
            y.2,
        ) == 0 by {
            assert(b.ax * (-a.ay) + b.ay * a.ax + b.az * 0 == 0) by (nonlinear_arith)
                requires
                    a.ax * b.ay - a.ay * b.ax == 0,
            ;
        }
        y
    } else {
        let y = (1int, 0int, 0int);
        assert(a.ay * 0 == 0 && a.az * 0 == 0);
        assert forall|b: Row| cross_product(a, b) == (0int, 0int, 0int) implies row_dot(
            b,
            y.0,
            y.1,
            y.2,
        ) == 0 by {
            assert(b.ax == 0) by (nonlinear_arith)
                requires
                    a.az * b.ax - a.ax * b.az == 0,
                    a.ax == 0,
                    a.az != 0,
            ;
            assert(b.ay * 0 == 0 && b.az * 0 == 0);
        }
        y
    }
}

proof fn lemma_cross_product_flips(a: Row, b: Row)
    ensures
        cross_product(a, b) == (0int, 0int, 0int) <==> cross_product(b, a) == (0int, 0int, 0int),
{
    broadcast use vstd::arithmetic::mul::lemma_mul_is_commutative;
}

/// Three rows whose triple product is zero are all orthogonal to some vector
/// other than zero.
proof fn lemma_flat_rows(a: Row, b: Row, c: Row) -> (y: (int, int, int))
    requires
        triple(a, b, c) == 0,
    ensures
        y.0 != 0 || y.1 != 0 || y.2 != 0,
        row_dot(a, y.0, y.1, y.2) == 0,
        row_dot(b, y.0, y.1, y.2) == 0,
        row_dot(c, y.0, y.1, y.2) == 0,
{
    lemma_cross_product(a, b, c);
    lemma_cross_product(b, c, a);
    lemma_cross_product(c, a, b);
    lemma_cross_product_flips(a, b);
    lemma_cross_product_flips(b, c);
    lemma_cross_product_flips(c, a);
    let n1 = cross_product(b, c);
    let n2 = cross_product(c, a);
    let n3 = cross_product(a, b);
    if n1 != (0int, 0int, 0int) {
        n1
    } else if n2 != (0int, 0int, 0int) {
        n2
    } else if n3 != (0int, 0int, 0int) {
        n3
    } else if a.ax != 0 || a.ay != 0 || a.az != 0 {
        lemma_orthogonal_to_line(a)
    } else if b.ax != 0 || b.ay != 0 || b.az != 0 {
        lemma_orthogonal_to_line(b)
    } else if c.ax != 0 || c.ay != 0 || c.az != 0 {
        lemma_orthogonal_to_line(c)
    } else {
        (1int, 0int, 0int)
    }
}

/// The cross term of three rows, written out.
proof fn lemma_cross_of_three(
    rs: Seq<Row>,
    ux: int, uy: int, uz: int, d: int,
    yx: int, yy: int, yz: int,
)
    requires
        rs.len() == 3,
    ensures
        cross(rs, ux, uy, uz, d, yx, yy, yz) == row_residual(rs[0], ux, uy, uz, d) * row_dot(
            rs[0],
            yx,
            yy,
            yz,
        ) + row_residual(rs[1], ux, uy, uz, d) * row_dot(rs[1], yx, yy, yz) + row_residual(
            rs[2],
            ux,
            uy,
            uz,
            d,
        ) * row_dot(rs[2], yx, yy, yz),
{
    let two = rs.drop_last();
    let one = two.drop_last();
    let none = one.drop_last();
    assert(two.last() == rs[1] && one.last() == rs[0] && none.len() == 0);
    assert(cross(none, ux, uy, uz, d, yx, yy, yz) == 0);
    assert(cross(one, ux, uy, uz, d, yx, yy, yz) == cross(none, ux, uy, uz, d, yx, yy, yz)
        + row_residual(rs[0], ux, uy, uz, d) * row_dot(rs[0], yx, yy, yz));
    assert(cross(two, ux, uy, uz, d, yx, yy, yz) == cross(one, ux, uy, uz, d, yx, yy, yz)
        + row_residual(rs[1], ux, uy, uz, d) * row_dot(rs[1], yx, yy, yz));
}

/// What is left of one row, where the two other rows are orthogonal to a
/// vector and this one is not.
proof fn lemma_single_residual(
    rs: Seq<Row>,
    i: int, j: int, k: int,
    yx: int, yy: int, yz: int,
)
    requires
        rs.len() == 3,
        0 <= i < 3 && 0 <= j < 3 && 0 <= k < 3 && i != j && j != k && i != k,
        row_dot(rs[i], yx, yy, yz) != 0,
        row_dot(rs[j], yx, yy, yz) == 0,
        row_dot(rs[k], yx, yy, yz) == 0,
    ensures
        ({
            let n = normal_of(rs);
            row_residual(rs[i], n.num_x(), n.num_y(), n.num_z(), 2 * n.det()) == 0
        }),
{
    let n = normal_of(rs);
    let d = 2 * n.det();
    let (ux, uy, uz) = (n.num_x(), n.num_y(), n.num_z());
    lemma_cross_by_normal(rs, ux, uy, uz, d, yx, yy, yz);
    lemma_solves_normal_equations(n);
    lemma_cross_vanishes(n.det(), n.xc, n.yc, n.zc, yx, yy, yz);
    lemma_cross_of_three(rs, ux, uy, uz, d, yx, yy, yz);
    let ri = row_residual(rs[i], ux, uy, uz, d);
    let rj = row_residual(rs[j], ux, uy, uz, d);
    let rk = row_residual(rs[k], ux, uy, uz, d);
    let t = row_dot(rs[i], yx, yy, yz);
    assert(rj * 0 == 0 && rk * 0 == 0);
    assert(ri * t == 0);
    assert(ri == 0) by (nonlinear_arith)
        requires
            ri * t == 0,
            t != 0,
    ;
}

/// Three rows whose normal matrix is not singular are met exactly by the
/// solution of their normal equations.
pub proof fn lemma_three_rows_fit(rs: Seq<Row>)
    requires
        rs.len() == 3,
        normal_of(rs).det() != 0,
    ensures
        ({
            let n = normal_of(rs);
            forall|i: int|
                0 <= i < 3 ==> row_residual(
                    #[trigger] rs[i],
                    n.num_x(),
                    n.num_y(),
                    n.num_z(),
                    2 * n.det(),
                ) == 0
        }),
{
    let (a, b, c) = (rs[0], rs[1], rs[2]);
    let n = normal_of(rs);
    let t = triple(a, b, c);
    if t == 0 {
        let y = lemma_flat_rows(a, b, c);
        lemma_normal_of_orthogonal_rows(rs, y.0, y.1, y.2);
        assert(y.0 * 0 == 0 && y.1 * 0 == 0 && y.2 * 0 == 0);
        assert(quadratic(n, y.0, y.1, y.2) == 0);
        lemma_null_vector(rs, y.0, y.1, y.2);
        assert(false);
    }
    lemma_cross_product(a, b, c);
    lemma_cross_product(b, c, a);
    lemma_cross_product(c, a, b);
    let n1 = cross_product(b, c);
    let n2 = cross_product(c, a);
    let n3 = cross_product(a, b);
    lemma_single_residual(rs, 0, 1, 2, n1.0, n1.1, n1.2);
    lemma_single_residual(rs, 1, 2, 0, n2.0, n2.1, n2.2);
    lemma_single_residual(rs, 2, 0, 1, n3.0, n3.1, n3.2);
}

/// With four references that have a solution, the solution meets every
/// linearized equation exactly, whatever the squared distances are.
pub proof fn lemma_four_references_fit(refs: Seq<Point>, sq: Seq<u64>)
    requires
        refs.len() == sq.len(),
        refs.len() == 4,
        solution(refs, sq) is Some,
    ensures
        fits(refs, sq, solution(refs, sq).unwrap()),
{
    let rs = rows(refs, sq);
    let n = normal_of(rs);
    let e = solution(refs, sq).unwrap();
    lemma_three_rows_fit(rs);
    assert forall|i: int| 1 <= i < refs.len() implies #[trigger] fits_at(refs, sq, i, e) by {
        let r = rs[i - 1];
        assert(row_residual(r, n.num_x(), n.num_y(), n.num_z(), 2 * n.det()) == 0);
        assert(e.scale * refs[0].x == refs[0].x * e.scale && e.scale * refs[0].y == refs[0].y
            * e.scale && e.scale * refs[0].z == refs[0].z * e.scale) by (nonlinear_arith);
    }
}

/// Order invariance with four references: where they have a solution, the
/// pairs can come in any order, with any of them as the pivot, whatever the
/// squared distances are. The other order has a solution too, and it is the
/// same position.
pub proof fn lemma_order_invariance_four(
    refs: Seq<Point>,
    sq: Seq<u64>,
    refs2: Seq<Point>,
    sq2: Seq<u64>,
    perm: Seq<int>,
)
    requires
        refs.len() == sq.len(),
        refs2.len() == sq2.len(),
        refs.len() == refs2.len(),
        refs.len() == 4,
        is_permutation(perm, refs.len()),
        forall|i: int| 0 <= i < refs2.len() ==> #[trigger] refs2[i] == refs[perm[i]],
        forall|i: int| 0 <= i < sq2.len() ==> #[trigger] sq2[i] == sq[perm[i]],
        solution(refs, sq) is Some,
    ensures
        solution(refs2, sq2) is Some,
        solution(refs, sq).unwrap().same_position(solution(refs2, sq2).unwrap()),
{
    lemma_four_references_fit(refs, sq);
    lemma_order_invariance_consistent(refs, sq, refs2, sq2, perm);
}

} // verus!
