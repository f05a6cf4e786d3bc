//! Facts about the normal equations: the adjugate, the quadratic form, the
//! kernel of a singular matrix, and sums over rearranged rows.

use vstd::prelude::*;
use crate::model::{normal_of, Normal, Row};

verus! {

/// The offset of a row against a vector.
pub open spec fn row_dot(r: Row, wx: int, wy: int, wz: int) -> int {
    r.ax * wx + r.ay * wy + r.az * wz
}

/// The matrix of the normal equations, applied to a vector.
pub open spec fn apply(n: Normal, wx: int, wy: int, wz: int) -> (int, int, int) {
    (
        n.xx * wx + n.xy * wy + n.xz * wz,
        n.xy * wx + n.yy * wy + n.yz * wz,
        n.xz * wx + n.yz * wy + n.zz * wz,
    )
}

/// The adjugate times the matrix is the determinant times the identity.
pub proof fn lemma_adjugate(n: Normal)
    ensures
        n.cof_xx() * n.xx + n.cof_xy() * n.xy + n.cof_xz() * n.xz == n.det(),
        n.cof_xx() * n.xy + n.cof_xy() * n.yy + n.cof_xz() * n.yz == 0,
        n.cof_xx() * n.xz + n.cof_xy() * n.yz + n.cof_xz() * n.zz == 0,
        n.cof_xy() * n.xx + n.cof_yy() * n.xy + n.cof_yz() * n.xz == 0,
        n.cof_xy() * n.xy + n.cof_yy() * n.yy + n.cof_yz() * n.yz == n.det(),
        n.cof_xy() * n.xz + n.cof_yy() * n.yz + n.cof_yz() * n.zz == 0,
        n.cof_xz() * n.xx + n.cof_yz() * n.xy + n.cof_zz() * n.xz == 0,
        n.cof_xz() * n.xy + n.cof_yz() * n.yy + n.cof_zz() * n.yz == 0,
        n.cof_xz() * n.xz + n.cof_yz() * n.yz + n.cof_zz() * n.zz == n.det(),
{
    broadcast use vstd::arithmetic::mul::group_mul_is_commutative_and_distributive;
    broadcast use vstd::arithmetic::mul::lemma_mul_is_associative;
}

/// `a * (p, q, r) . (wx, wy, wz)` summed over three rows, regrouped by the
/// components of the vector.
proof fn lemma_regroup(
    a: int, b: int, c: int,
    p1: int, q1: int, r1: int,
    p2: int, q2: int, r2: int,
    p3: int, q3: int, r3: int,
    wx: int, wy: int, wz: int,
)
    ensures
        a * (p1 * wx + q1 * wy + r1 * wz) + b * (p2 * wx + q2 * wy + r2 * wz) + c * (p3 * wx + q3
            * wy + r3 * wz) == (a * p1 + b * p2 + c * p3) * wx + (a * q1 + b * q2 + c * q3) * wy + (
        a * r1 + b * r2 + c * r3) * wz,
{
    broadcast use vstd::arithmetic::mul::group_mul_is_distributive;
    broadcast use vstd::arithmetic::mul::lemma_mul_is_associative;
}

/// The adjugate, applied to the matrix applied to a vector, is the
/// determinant times that vector.
pub proof fn lemma_adjugate_apply(n: Normal, wx: int, wy: int, wz: int)
    ensures
        ({
            let (mx, my, mz) = apply(n, wx, wy, wz);
            &&& n.cof_xx() * mx + n.cof_xy() * my + n.cof_xz() * mz == n.det() * wx
            &&& n.cof_xy() * mx + n.cof_yy() * my + n.cof_yz() * mz == n.det() * wy
            &&& n.cof_xz() * mx + n.cof_yz() * my + n.cof_zz() * mz == n.det() * wz
        }),
{
    lemma_adjugate(n);
    lemma_regroup(
        n.cof_xx(), n.cof_xy(), n.cof_xz(),
        n.xx, n.xy, n.xz, n.xy, n.yy, n.yz, n.xz, n.yz, n.zz,
        wx, wy, wz,
    );
    lemma_regroup(
        n.cof_xy(), n.cof_yy(), n.cof_yz(),
        n.xx, n.xy, n.xz, n.xy, n.yy, n.yz, n.xz, n.yz, n.zz,
        wx, wy, wz,
    );
    lemma_regroup(
        n.cof_xz(), n.cof_yz(), n.cof_zz(),
        n.xx, n.xy, n.xz, n.xy, n.yy, n.yz, n.xz, n.yz, n.zz,
        wx, wy, wz,
    );
}

/// Cramer's rule: the numerators of the solution, over the determinant,
/// solve the normal equations.
pub proof fn lemma_solves_normal_equations(n: Normal)
    ensures
        apply(n, n.num_x(), n.num_y(), n.num_z()) == (
            n.det() * n.xc,
            n.det() * n.yc,
            n.det() * n.zc,
        ),
{
    lemma_adjugate(n);
    lemma_regroup(
        n.xx, n.xy, n.xz,
        n.cof_xx(), n.cof_xy(), n.cof_xz(),
        n.cof_xy(), n.cof_yy(), n.cof_yz(),
        n.cof_xz(), n.cof_yz(), n.cof_zz(),
        n.xc, n.yc, n.zc,
    );
    lemma_regroup(
        n.xy, n.yy, n.yz,
        n.cof_xx(), n.cof_xy(), n.cof_xz(),
        n.cof_xy(), n.cof_yy(), n.cof_yz(),
        n.cof_xz(), n.cof_yz(), n.cof_zz(),
        n.xc, n.yc, n.zc,
    );
    lemma_regroup(
        n.xz, n.yz, n.zz,
        n.cof_xx(), n.cof_xy(), n.cof_xz(),
        n.cof_xy(), n.cof_yy(), n.cof_yz(),
        n.cof_xz(), n.cof_yz(), n.cof_zz(),
        n.xc, n.yc, n.zc,
    );
    broadcast use vstd::arithmetic::mul::lemma_mul_is_commutative;
    broadcast use vstd::arithmetic::mul::lemma_mul_basics_1;
}

/// If `q` times every row's right-hand side is `k` times its offset against
/// one vector, `q` times the right-hand side of the normal equations is `k`
/// times the matrix applied to that vector.
pub proof fn lemma_normal_of_scaled_rows(rs: Seq<Row>, q: int, k: int, wx: int, wy: int, wz: int)
    requires
        forall|i: int|
            0 <= i < rs.len() ==> q * (#[trigger] rs[i]).c == k * row_dot(rs[i], wx, wy, wz),
    ensures
        ({
            let n = normal_of(rs);
            let (mx, my, mz) = apply(n, wx, wy, wz);
            &&& q * n.xc == k * mx
            &&& q * n.yc == k * my
            &&& q * n.zc == k * mz
        }),
    decreases rs.len(),
{
    broadcast use vstd::arithmetic::mul::lemma_mul_is_commutative;
    if rs.len() > 0 {
        let head = rs.drop_last();
        let r = rs.last();
        assert forall|i: int| 0 <= i < head.len() implies q * (#[trigger] head[i]).c == k
            * row_dot(head[i], wx, wy, wz) by {
            assert(head[i] == rs[i]);
        }
        lemma_normal_of_scaled_rows(head, q, k, wx, wy, wz);
        let n = normal_of(head);
        assert(q * r.c == k * row_dot(r, wx, wy, wz));
        lemma_step(n.xx, n.xy, n.xz, n.xc, r.ax, r, q, k, wx, wy, wz);
        lemma_step(n.xy, n.yy, n.yz, n.yc, r.ay, r, q, k, wx, wy, wz);
        lemma_step(n.xz, n.yz, n.zz, n.zc, r.az, r, q, k, wx, wy, wz);
        let m = normal_of(rs);
        assert(m == n.plus(r));
        assert(q * m.xc == k * apply(m, wx, wy, wz).0);
        assert(q * m.yc == k * apply(m, wx, wy, wz).1);
        assert(q * m.zc == k * apply(m, wx, wy, wz).2);
    } else {
        assert(normal_of(rs) == Normal::zero());
        assert(k * 0 == 0 && q * 0 == 0);
    }
}

/// One line of the normal equations keeps its relation to the vector when a
/// row is added.
proof fn lemma_step(
    sx: int, sy: int, sz: int, sc: int,
    a: int, r: Row, q: int, k: int,
    wx: int, wy: int, wz: int,
)
    requires
        q * sc == k * (sx * wx + sy * wy + sz * wz),
        q * r.c == k * row_dot(r, wx, wy, wz),
    ensures
        q * (sc + a * r.c) == k * ((sx + a * r.ax) * wx + (sy + a * r.ay) * wy + (sz + a * r.az)
            * wz),
{
    let d = row_dot(r, wx, wy, wz);
    let s = sx * wx + sy * wy + sz * wz;
    lemma_apply_step(sx, sy, sz, a, r, wx, wy, wz);
    assert(q * (sc + a * r.c) == k * (s + a * d)) by (nonlinear_arith)
        requires
            q * sc == k * s,
            q * r.c == k * d,
    ;
}

/// The matrix applied to a vector, after one more row, is what it was plus
/// the row's offset times the row's product with the vector.
pub proof fn lemma_apply_step(sx: int, sy: int, sz: int, a: int, r: Row, wx: int, wy: int, wz: int)
    ensures
        (sx + a * r.ax) * wx + (sy + a * r.ay) * wy + (sz + a * r.az) * wz == (sx * wx + sy * wy
            + sz * wz) + a * row_dot(r, wx, wy, wz),
{
    broadcast use vstd::arithmetic::mul::group_mul_is_distributive;
    broadcast use vstd::arithmetic::mul::lemma_mul_is_associative;
}

/// If every row's offset is orthogonal to one vector, the matrix of the
/// normal equations sends that vector to zero.
pub proof fn lemma_normal_of_orthogonal_rows(rs: Seq<Row>, nx: int, ny: int, nz: int)
    requires
        forall|i: int| 0 <= i < rs.len() ==> row_dot(#[trigger] rs[i], nx, ny, nz) == 0,
    ensures
        apply(normal_of(rs), nx, ny, nz) == (0int, 0int, 0int),
    decreases rs.len(),
{
    broadcast use vstd::arithmetic::mul::lemma_mul_is_commutative;
    if rs.len() > 0 {
        let head = rs.drop_last();
        let r = rs.last();
        assert forall|i: int| 0 <= i < head.len() implies row_dot(#[trigger] head[i], nx, ny, nz)
            == 0 by {
            assert(head[i] == rs[i]);
        }
        lemma_normal_of_orthogonal_rows(head, nx, ny, nz);
        let n = normal_of(head);
        assert(row_dot(r, nx, ny, nz) == 0);
        lemma_apply_step(n.xx, n.xy, n.xz, r.ax, r, nx, ny, nz);
        lemma_apply_step(n.xy, n.yy, n.yz, r.ay, r, nx, ny, nz);
        lemma_apply_step(n.xz, n.yz, n.zz, r.az, r, nx, ny, nz);
        assert(normal_of(rs) == n.plus(r));
    } else {
        assert(normal_of(rs) == Normal::zero());
    }
}

/// Adding two rows gives the same normal equations in either order.
proof fn lemma_plus_commutes(n: Normal, a: Row, b: Row)
    ensures
        n.plus(a).plus(b) == n.plus(b).plus(a),
{
}

/// The normal equations of a sequence are those of the sequence without one
/// of its rows, plus that row.
pub proof fn lemma_normal_of_remove(rs: Seq<Row>, j: int)
    requires
        0 <= j < rs.len(),
    ensures
        normal_of(rs) == normal_of(rs.remove(j)).plus(rs[j]),
    decreases rs.len(),
{
    if j == rs.len() - 1 {
        assert(rs.remove(j) =~= rs.drop_last());
    } else {
        let head = rs.drop_last();
        lemma_normal_of_remove(head, j);
        assert(rs.remove(j).drop_last() =~= head.remove(j));
        assert(rs.remove(j).last() == rs.last());
        assert(head[j] == rs[j]);
        lemma_plus_commutes(normal_of(head.remove(j)), rs[j], rs.last());
    }
}

/// `perm` lists the indices below `len`, each of them once.
pub open spec fn is_permutation(perm: Seq<int>, len: nat) -> bool {
    &&& perm.len() == len
    &&& forall|i: int| 0 <= i < len ==> 0 <= #[trigger] perm[i] < len
    &&& forall|i: int, j: int| 0 <= i < j < len ==> #[trigger] perm[i] != #[trigger] perm[j]
}

/// The normal equations do not depend on the order of the rows.
pub proof fn lemma_normal_of_permuted_rows(a: Seq<Row>, b: Seq<Row>, perm: Seq<int>)
    requires
        a.len() == b.len(),
        is_permutation(perm, a.len()),
        forall|i: int| 0 <= i < b.len() ==> #[trigger] b[i] == a[perm[i]],
    ensures
        normal_of(b) == normal_of(a),
    decreases a.len(),
{
    if a.len() > 0 {
        let last = a.len() - 1;
        let j = perm[last];
        let shorter = a.remove(j);
        let head = b.drop_last();
        let shifted = Seq::new(
            last as nat,
            |i: int|
                if perm[i] < j {
                    perm[i]
                } else {
                    perm[i] - 1
                },
        );
        assert forall|i: int| 0 <= i < last implies 0 <= #[trigger] shifted[i] < last && head[i]
            == shorter[shifted[i]] by {
            assert(perm[i] != perm[last]);
            assert(head[i] == b[i]);
        }
        assert forall|i: int, k: int| 0 <= i < k < last implies #[trigger] shifted[i]
            != #[trigger] shifted[k] by {
            assert(perm[i] != perm[k]);
            assert(perm[i] != perm[last]);
            assert(perm[k] != perm[last]);
        }
        lemma_normal_of_permuted_rows(shorter, head, shifted);
        lemma_normal_of_remove(a, j);
        assert(b.last() == a[j]);
    }
}

/// A permutation reaches every index.
pub proof fn lemma_permutation_is_onto(perm: Seq<int>, len: nat, j: int) -> (i: int)
    requires
        is_permutation(perm, len),
        0 <= j < len,
    ensures
        0 <= i < len,
        perm[i] == j,
{
    let range = vstd::set_lib::set_int_range(0, len as int);
    assert(perm.no_duplicates()) by {
        assert forall|a: int, b: int|
            0 <= a < perm.len() && 0 <= b < perm.len() && a != b implies perm[a] != perm[b] by {
            if a < b {
                assert(perm[a] != perm[b]);
            } else {
                assert(perm[b] != perm[a]);
            }
        }
    }
    perm.unique_seq_to_set();
    vstd::set_lib::lemma_int_range(0, len as int);
    assert(perm.to_set().subset_of(range)) by {
        assert forall|v: int| perm.to_set().contains(v) implies range.contains(v) by {
            let k = choose|k: int| 0 <= k < perm.len() && perm[k] == v;
            assert(0 <= perm[k] < len);
        }
    }
    vstd::set_lib::lemma_len_subset(perm.to_set(), range);
    vstd::set_lib::lemma_subset_equality(perm.to_set(), range);
    assert(range.contains(j));
    assert(perm.to_set().contains(j));
    assert(perm.contains(j));
    choose|i: int| 0 <= i < perm.len() && perm[i] == j
}

/// The sum, over the rows, of the squared product of each row's offset with
/// one vector.
pub open spec fn sum_of_squares(rs: Seq<Row>, wx: int, wy: int, wz: int) -> int
    decreases rs.len(),
{
    if rs.len() == 0 {
        0
    } else {
        sum_of_squares(rs.drop_last(), wx, wy, wz) + row_dot(rs.last(), wx, wy, wz) * row_dot(
            rs.last(),
            wx,
            wy,
            wz,
        )
    }
}

proof fn lemma_quadratic_step(
    wx: int, wy: int, wz: int,
    mx: int, my: int, mz: int,
    ax: int, ay: int, az: int,
    d: int,
)
    requires
        d == ax * wx + ay * wy + az * wz,
    ensures
        wx * (mx + ax * d) + wy * (my + ay * d) + wz * (mz + az * d) == (wx * mx + wy * my + wz
            * mz) + d * d,
{
    broadcast use vstd::arithmetic::mul::group_mul_is_commutative_and_distributive;
    broadcast use vstd::arithmetic::mul::lemma_mul_is_associative;
}

/// The quadratic form of the normal matrix is the sum of squares: it is
/// `At * A`.
pub proof fn lemma_quadratic_form(rs: Seq<Row>, wx: int, wy: int, wz: int)
    ensures
        ({
            let (mx, my, mz) = apply(normal_of(rs), wx, wy, wz);
            wx * mx + wy * my + wz * mz == sum_of_squares(rs, wx, wy, wz)
        }),
    decreases rs.len(),
{
    broadcast use vstd::arithmetic::mul::lemma_mul_is_commutative;
    if rs.len() > 0 {
        let head = rs.drop_last();
        let r = rs.last();
        lemma_quadratic_form(head, wx, wy, wz);
        let n = normal_of(head);
        let (mx, my, mz) = apply(n, wx, wy, wz);
        let d = row_dot(r, wx, wy, wz);
        lemma_apply_step(n.xx, n.xy, n.xz, r.ax, r, wx, wy, wz);
        lemma_apply_step(n.xy, n.yy, n.yz, r.ay, r, wx, wy, wz);
        lemma_apply_step(n.xz, n.yz, n.zz, r.az, r, wx, wy, wz);
        let m = normal_of(rs);
        assert(m == n.plus(r));
        assert(apply(m, wx, wy, wz) == (mx + r.ax * d, my + r.ay * d, mz + r.az * d));
        lemma_quadratic_step(wx, wy, wz, mx, my, mz, r.ax, r.ay, r.az, d);
    } else {
        assert(normal_of(rs) == Normal::zero());
    }
}

/// A sum of squares is zero only where each of them is.
pub proof fn lemma_sum_of_squares_zero(rs: Seq<Row>, wx: int, wy: int, wz: int)
    ensures
        sum_of_squares(rs, wx, wy, wz) >= 0,
        sum_of_squares(rs, wx, wy, wz) == 0 ==> forall|i: int|
            0 <= i < rs.len() ==> row_dot(#[trigger] rs[i], wx, wy, wz) == 0,
    decreases rs.len(),
{
    if rs.len() > 0 {
        let head = rs.drop_last();
        let d = row_dot(rs.last(), wx, wy, wz);
        lemma_sum_of_squares_zero(head, wx, wy, wz);
        assert(d * d >= 0 && (d * d == 0 ==> d == 0)) by (nonlinear_arith);
        if sum_of_squares(rs, wx, wy, wz) == 0 {
            assert forall|i: int| 0 <= i < rs.len() implies row_dot(#[trigger] rs[i], wx, wy, wz)
                == 0 by {
                if i < rs.len() - 1 {
                    assert(head[i] == rs[i]);
                }
            }
        }
    }
}

proof fn lemma_kernel_of_rank_one(xx: int, xy: int, xz: int, yy: int, yz: int, zz: int)
    requires
        xx * yy - xy * xy == 0,
        xy * xz - xx * yz == 0,
    ensures
        xx * (-xy) + xy * xx + xz * 0 == 0,
        xy * (-xy) + yy * xx + yz * 0 == 0,
        xz * (-xy) + yz * xx + zz * 0 == 0,
{
    broadcast use vstd::arithmetic::mul::lemma_mul_is_commutative;
    broadcast use vstd::arithmetic::mul::lemma_mul_unary_negation;
}

/// A singular normal matrix sends some vector other than zero to zero.
pub proof fn lemma_kernel_vector(n: Normal) -> (w: (int, int, int))
    requires
        n.det() == 0,
    ensures
        w.0 != 0 || w.1 != 0 || w.2 != 0,
        apply(n, w.0, w.1, w.2) == (0int, 0int, 0int),
{
    lemma_adjugate(n);
    if n.cof_xx() != 0 || n.cof_xy() != 0 || n.cof_xz() != 0 {
        broadcast use vstd::arithmetic::mul::lemma_mul_is_commutative;
        (n.cof_xx(), n.cof_xy(), n.cof_xz())
    } else if n.cof_yy() != 0 || n.cof_yz() != 0 {
        broadcast use vstd::arithmetic::mul::lemma_mul_is_commutative;
        (n.cof_xy(), n.cof_yy(), n.cof_yz())
    } else if n.cof_zz() != 0 {
        broadcast use vstd::arithmetic::mul::lemma_mul_is_commutative;
        (n.cof_xz(), n.cof_yz(), n.cof_zz())
    } else if n.xx != 0 || n.xy != 0 {
        lemma_kernel_of_rank_one(n.xx, n.xy, n.xz, n.yy, n.yz, n.zz);
        (-n.xy, n.xx, 0int)
    } else {
        assert(n.xz == 0) by (nonlinear_arith)
            requires
                n.xx * n.zz - n.xz * n.xz == 0,
                n.xx == 0,
        ;
        (1int, 0int, 0int)
    }
}

/// The quadratic form of the normal matrix at a vector.
pub open spec fn quadratic(n: Normal, wx: int, wy: int, wz: int) -> int {
    let (mx, my, mz) = apply(n, wx, wy, wz);
    wx * mx + wy * my + wz * mz
}

/// A vector other than zero at which the quadratic form of a set of rows
/// vanishes shows that their normal matrix is singular.
pub proof fn lemma_null_vector(rs: Seq<Row>, wx: int, wy: int, wz: int)
    requires
        wx != 0 || wy != 0 || wz != 0,
        quadratic(normal_of(rs), wx, wy, wz) == 0,
    ensures
        normal_of(rs).det() == 0,
{
    let n = normal_of(rs);
    lemma_quadratic_form(rs, wx, wy, wz);
    lemma_sum_of_squares_zero(rs, wx, wy, wz);
    lemma_normal_of_orthogonal_rows(rs, wx, wy, wz);
    lemma_adjugate_apply(n, wx, wy, wz);
    assert(n.cof_xx() * 0 == 0 && n.cof_xy() * 0 == 0 && n.cof_xz() * 0 == 0);
    assert(n.cof_yy() * 0 == 0 && n.cof_yz() * 0 == 0 && n.cof_zz() * 0 == 0);
    let det = n.det();
    assert(det == 0) by (nonlinear_arith)
        requires
            det * wx == 0,
            det * wy == 0,
            det * wz == 0,
            wx != 0 || wy != 0 || wz != 0,
    ;
}

proof fn lemma_quadratic_in_plane(n: Normal, b: int, c: int)
    ensures
        quadratic(n, 0, b, c) == b * (n.yy * b + n.yz * c) + c * (n.yz * b + n.zz * c),
{
    assert(n.xy * 0 == 0 && n.yy * 0 == 0 && n.xz * 0 == 0 && n.xx * 0 == 0);
}

proof fn lemma_minor_values(yy: int, yz: int, zz: int)
    ensures
        zz * (yy * zz + yz * (-yz)) + (-yz) * (yz * zz + zz * (-yz)) == zz * (yy * zz - yz * yz),
        (-yz) * (yy * (-yz) + yz * yy) + yy * (yz * (-yz) + zz * yy) == yy * (yy * zz - yz * yz),
        1 * (yy * 1 + yz * (-yz)) + (-yz) * (yz * 1 + zz * (-yz)) == yy - 2 * (yz * yz) + zz * (yz
            * yz),
{
    assert(zz * (yy * zz + yz * (-yz)) + (-yz) * (yz * zz + zz * (-yz)) == zz * (yy * zz - yz
        * yz)) by (nonlinear_arith);
    assert((-yz) * (yy * (-yz) + yz * yy) + yy * (yz * (-yz) + zz * yy) == yy * (yy * zz - yz
        * yz)) by (nonlinear_arith);
    assert(1 * (yy * 1 + yz * (-yz)) + (-yz) * (yz * 1 + zz * (-yz)) == yy - 2 * (yz * yz) + zz
        * (yz * yz)) by (nonlinear_arith);
}

/// The determinant of a normal matrix is never negative.
pub proof fn lemma_det_nonnegative(rs: Seq<Row>)
    ensures
        normal_of(rs).det() >= 0,
{
    let n = normal_of(rs);
    let minor = n.cof_xx();
    let det = n.det();
    lemma_minor_values(n.yy, n.yz, n.zz);
    lemma_quadratic_in_plane(n, n.zz, -n.yz);
    lemma_quadratic_in_plane(n, -n.yz, n.yy);
    lemma_quadratic_in_plane(n, 1, -n.yz);
    lemma_quadratic_in_plane(n, 0, 1);
    lemma_quadratic_in_plane(n, 1, 0);
    lemma_quadratic_form(rs, 0, n.zz, -n.yz);
    lemma_sum_of_squares_zero(rs, 0, n.zz, -n.yz);
    lemma_quadratic_form(rs, 0, -n.yz, n.yy);
    lemma_sum_of_squares_zero(rs, 0, -n.yz, n.yy);
    lemma_quadratic_form(rs, 0, 1, -n.yz);
    lemma_sum_of_squares_zero(rs, 0, 1, -n.yz);
    lemma_quadratic_form(rs, 0, 0, 1);
    lemma_sum_of_squares_zero(rs, 0, 0, 1);
    lemma_quadratic_form(rs, 0, 1, 0);
    lemma_sum_of_squares_zero(rs, 0, 1, 0);
    assert(quadratic(n, 0, 0, 1) == n.zz);
    assert(quadratic(n, 0, 1, 0) == n.yy);
    assert(n.zz >= 0 && n.yy >= 0);
    assert(quadratic(n, 0, n.zz, -n.yz) == n.zz * minor);
    assert(quadratic(n, 0, -n.yz, n.yy) == n.yy * minor);
    if minor == 0 {
        if n.zz != 0 || n.yz != 0 {
            assert(n.zz * 0 == 0);
            lemma_null_vector(rs, 0, n.zz, -n.yz);
        } else {
            lemma_null_vector(rs, 0, 0, 1);
        }
    } else if minor > 0 {
        lemma_adjugate(n);
        lemma_quadratic_form(rs, n.cof_xx(), n.cof_xy(), n.cof_xz());
        lemma_sum_of_squares_zero(rs, n.cof_xx(), n.cof_xy(), n.cof_xz());
        assert(apply(n, n.cof_xx(), n.cof_xy(), n.cof_xz()) == (det, 0int, 0int)) by {
            broadcast use vstd::arithmetic::mul::lemma_mul_is_commutative;
        }
        assert(n.cof_xy() * 0 == 0 && n.cof_xz() * 0 == 0);
        assert(det >= 0) by (nonlinear_arith)
            requires
                minor * det >= 0,
                minor > 0,
        ;
    } else {
        let (yy, yz, zz) = (n.yy, n.yz, n.zz);
        assert(zz == 0) by (nonlinear_arith)
            requires
                zz * minor >= 0,
                zz >= 0,
                minor < 0,
        ;
        assert(yy == 0) by (nonlinear_arith)
            requires
                yy * minor >= 0,
                yy >= 0,
                minor < 0,
        ;
        assert(zz * (yz * yz) == 0) by (nonlinear_arith)
            requires
                zz == 0,
        ;
        assert(yz * yz > 0) by (nonlinear_arith)
            requires
                yy * zz - yz * yz < 0,
                yy == 0,
        ;
        assert(quadratic(n, 0, 1, -yz) == yy - 2 * (yz * yz) + zz * (yz * yz));
        assert(false);
    }
}

} // verus!
