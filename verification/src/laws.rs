//! What holds of the solution, whatever the input.

use vstd::prelude::*;
use crate::algebra::{
    apply,
    is_permutation,
    lemma_adjugate_apply,
    lemma_det_nonnegative,
    lemma_kernel_vector,
    lemma_normal_of_orthogonal_rows,
    lemma_normal_of_permuted_rows,
    lemma_normal_of_scaled_rows,
    lemma_permutation_is_onto,
    lemma_quadratic_form,
    lemma_sum_of_squares_zero,
    row_dot,
};
use crate::model::{
    coplanar, exact, exact_at, in_plane, normal_of, row_of, rows, solution, Fraction, Point,
};
use crate::solver::{is_outcome, Estimate};

verus! {

/// Exact recovery: where the references do not lie in one plane and every
/// squared distance is the true one from its reference to the position `p`,
/// there is a solution, and it is that position.
pub proof fn lemma_exact_recovery(refs: Seq<Point>, sq: Seq<u64>, p: Fraction)
    requires
        refs.len() == sq.len(),
        refs.len() >= 4,
        p.scale != 0,
        exact(refs, sq, p),
        !coplanar(refs),
    ensures
        solution(refs, sq) is Some,
        solution(refs, sq).unwrap().same_position(p),
{
    assert(exact_at(refs[0], sq[0] as int, p));
    assert forall|i: int| 1 <= i < refs.len() implies #[trigger] fits_at(refs, sq, i, p) by {
        assert(exact_at(refs[i], sq[i] as int, p));
        lemma_exact_row(refs[0], sq[0] as int, refs[i], sq[i] as int, p);
    }
    lemma_fitting_position_is_solution(refs, sq, p);
}

/// The position `p` meets the linearized equation of the reference `i`
/// exactly.
pub open spec fn fits_at(refs: Seq<Point>, sq: Seq<u64>, i: int, p: Fraction) -> bool {
    let r = row_of(refs[0], sq[0] as int, refs[i], sq[i] as int);
    p.scale * r.c == 2 * row_dot(
        r,
        p.x - p.scale * refs[0].x,
        p.y - p.scale * refs[0].y,
        p.z - p.scale * refs[0].z,
    )
}

/// The position `p` meets every linearized equation exactly: the
/// measurements are consistent, and `p` is where they point.
pub open spec fn fits(refs: Seq<Point>, sq: Seq<u64>, p: Fraction) -> bool {
    forall|i: int| 1 <= i < refs.len() ==> #[trigger] fits_at(refs, sq, i, p)
}

/// Where the references do not lie in one plane, a position that meets
/// every linearized equation exactly is the solution.
pub proof fn lemma_fitting_position_is_solution(refs: Seq<Point>, sq: Seq<u64>, p: Fraction)
    requires
        refs.len() == sq.len(),
        refs.len() >= 4,
        p.scale != 0,
        fits(refs, sq, p),
        !coplanar(refs),
    ensures
        solution(refs, sq) is Some,
        solution(refs, sq).unwrap().same_position(p),
{
    lemma_solvable_iff_not_coplanar(refs, sq);
    let rs = rows(refs, sq);
    let q = p.scale;
    let (wx, wy, wz) = (p.x - q * refs[0].x, p.y - q * refs[0].y, p.z - q * refs[0].z);
    assert forall|i: int| 0 <= i < rs.len() implies q * (#[trigger] rs[i]).c == 2 * row_dot(
        rs[i],
        wx,
        wy,
        wz,
    ) by {
        assert(fits_at(refs, sq, i + 1, p));
    }
    lemma_normal_of_scaled_rows(rs, q, 2, wx, wy, wz);
    let n = normal_of(rs);
    let (mx, my, mz) = apply(n, wx, wy, wz);
    lemma_adjugate_apply(n, wx, wy, wz);
    lemma_recover_axis(
        n.cof_xx(), n.cof_xy(), n.cof_xz(), n.xc, n.yc, n.zc, mx, my, mz,
        n.det(), wx, refs[0].x as int, p.x, q,
    );
    lemma_recover_axis(
        n.cof_xy(), n.cof_yy(), n.cof_yz(), n.xc, n.yc, n.zc, mx, my, mz,
        n.det(), wy, refs[0].y as int, p.y, q,
    );
    lemma_recover_axis(
        n.cof_xz(), n.cof_yz(), n.cof_zz(), n.xc, n.yc, n.zc, mx, my, mz,
        n.det(), wz, refs[0].z as int, p.z, q,
    );
}

proof fn lemma_pivot_change_axis(ai: int, aj: int, w: int, d: int)
    ensures
        (ai - aj) * (ai - aj) == ai * ai - aj * aj - 2 * ((ai - aj) * aj),
        (ai - aj) * (w - d * aj) == ai * w - aj * w - d * ((ai - aj) * aj),
{
    assert((ai - aj) * (ai - aj) == ai * ai - aj * aj - 2 * ((ai - aj) * aj)) by (nonlinear_arith);
    assert((ai - aj) * (w - d * aj) == ai * w - aj * w - d * ((ai - aj) * aj)) by (nonlinear_arith);
}

/// An equation that a position meets with one pivot, it meets with any other
/// reference as the pivot, if it meets that reference's equation too.
proof fn lemma_pivot_change(
    o: Point, d0: int,
    ri: Point, di: int,
    rj: Point, dj: int,
    p: Fraction,
)
    requires
        ({
            let r = row_of(o, d0, ri, di);
            p.scale * r.c == 2 * row_dot(
                r,
                p.x - p.scale * o.x,
                p.y - p.scale * o.y,
                p.z - p.scale * o.z,
            )
        }),
        ({
            let r = row_of(o, d0, rj, dj);
            p.scale * r.c == 2 * row_dot(
                r,
                p.x - p.scale * o.x,
                p.y - p.scale * o.y,
                p.z - p.scale * o.z,
            )
        }),
    ensures
        ({
            let r = row_of(rj, dj, ri, di);
            p.scale * r.c == 2 * row_dot(
                r,
                p.x - p.scale * rj.x,
                p.y - p.scale * rj.y,
                p.z - p.scale * rj.z,
            )
        }),
{
    let d = p.scale;
    let a = row_of(o, d0, ri, di);
    let b = row_of(o, d0, rj, dj);
    let r = row_of(rj, dj, ri, di);
    let (wx, wy, wz) = (p.x - d * o.x, p.y - d * o.y, p.z - d * o.z);
    lemma_pivot_change_axis(a.ax, b.ax, wx, d);
    lemma_pivot_change_axis(a.ay, b.ay, wy, d);
    lemma_pivot_change_axis(a.az, b.az, wz, d);
    let g = (a.ax - b.ax) * b.ax + (a.ay - b.ay) * b.ay + (a.az - b.az) * b.az;
    assert(r.ax == a.ax - b.ax && r.ay == a.ay - b.ay && r.az == a.az - b.az);
    assert(p.x - d * rj.x == wx - d * b.ax) by (nonlinear_arith)
        requires
            wx == p.x - d * o.x,
            b.ax == rj.x - o.x,
    ;
    assert(p.y - d * rj.y == wy - d * b.ay) by (nonlinear_arith)
        requires
            wy == p.y - d * o.y,
            b.ay == rj.y - o.y,
    ;
    assert(p.z - d * rj.z == wz - d * b.az) by (nonlinear_arith)
        requires
            wz == p.z - d * o.z,
            b.az == rj.z - o.z,
    ;
    assert(r.c == a.c - b.c - 2 * g);
    assert(d * r.c == d * a.c - d * b.c - 2 * (d * g)) by (nonlinear_arith)
        requires
            r.c == a.c - b.c - 2 * g,
    ;
    let t = (a.ax - b.ax) * b.ax;
    let u = (a.ay - b.ay) * b.ay;
    let v = (a.az - b.az) * b.az;
    assert(d * g == d * t + d * u + d * v) by (nonlinear_arith)
        requires
            g == t + u + v,
    ;
}

/// The pivot meets its own equation, which says nothing.
proof fn lemma_fits_at_pivot(refs: Seq<Point>, sq: Seq<u64>, p: Fraction)
    requires
        refs.len() >= 1,
    ensures
        fits_at(refs, sq, 0, p),
{
    let r = row_of(refs[0], sq[0] as int, refs[0], sq[0] as int);
    assert(r.ax == 0 && r.ay == 0 && r.az == 0 && r.c == 0);
    assert(p.scale * 0 == 0);
    let (wx, wy, wz) = (
        p.x - p.scale * refs[0].x,
        p.y - p.scale * refs[0].y,
        p.z - p.scale * refs[0].z,
    );
    assert(0 * wx == 0 && 0 * wy == 0 && 0 * wz == 0);
}

/// Order invariance with consistent measurements: where the references do
/// not lie in one plane and the solution meets every linearized equation
/// exactly, the pairs can come in any order, with any of them as the pivot.
/// The other order has a solution too, and it is the same position.
pub proof fn lemma_order_invariance_consistent(
    refs: Seq<Point>,
    sq: Seq<u64>,
    refs2: Seq<Point>,
    sq2: Seq<u64>,
    perm: Seq<int>,
)
    requires
        refs.len() == sq.len(),
        refs2.len() == sq2.len(),
        refs.len() == refs2.len(),
        refs.len() >= 4,
        is_permutation(perm, refs.len()),
        forall|i: int| 0 <= i < refs2.len() ==> #[trigger] refs2[i] == refs[perm[i]],
        forall|i: int| 0 <= i < sq2.len() ==> #[trigger] sq2[i] == sq[perm[i]],
        solution(refs, sq) is Some,
        fits(refs, sq, solution(refs, sq).unwrap()),
    ensures
        solution(refs2, sq2) is Some,
        solution(refs, sq).unwrap().same_position(solution(refs2, sq2).unwrap()),
{
    let e = solution(refs, sq).unwrap();
    lemma_solvable_iff_not_coplanar(refs, sq);
    lemma_coplanar_permuted(refs, refs2, perm);
    lemma_fits_at_pivot(refs, sq, e);
    let j = perm[0];
    assert(refs2[0] == refs[j] && sq2[0] == sq[j]);
    assert(fits_at(refs, sq, j, e));
    assert forall|k: int| 1 <= k < refs2.len() implies #[trigger] fits_at(refs2, sq2, k, e) by {
        let i = perm[k];
        assert(refs2[k] == refs[i] && sq2[k] == sq[i]);
        assert(fits_at(refs, sq, i, e));
        lemma_pivot_change(refs[0], sq[0] as int, refs[i], sq[i] as int, refs[j], sq[j] as int, e);
    }
    lemma_fitting_position_is_solution(refs2, sq2, e);
}

/// Degenerate geometry: where all references lie in one plane
/// `nx * x + ny * y + nz * z == k`, there is no solution, whatever the
/// squared distances are.
pub proof fn lemma_coplanar_has_no_solution(
    refs: Seq<Point>,
    sq: Seq<u64>,
    nx: int,
    ny: int,
    nz: int,
    k: int,
)
    requires
        refs.len() == sq.len(),
        refs.len() >= 4,
        in_plane(refs, nx, ny, nz, k),
    ensures
        solution(refs, sq) is None,
{
    let rs = rows(refs, sq);
    assert forall|i: int| 0 <= i < rs.len() implies row_dot(#[trigger] rs[i], nx, ny, nz) == 0 by {
        let o = refs[0];
        let p = refs[i + 1];
        assert(nx * o.x + ny * o.y + nz * o.z == k);
        assert(nx * p.x + ny * p.y + nz * p.z == k);
        assert(rs[i].ax == p.x - o.x && rs[i].ay == p.y - o.y && rs[i].az == p.z - o.z);
        lemma_offset_in_plane(
            nx, ny, nz,
            o.x as int, o.y as int, o.z as int,
            p.x as int, p.y as int, p.z as int,
            k,
        );
    }
    lemma_normal_of_orthogonal_rows(rs, nx, ny, nz);
    let n = normal_of(rs);
    lemma_adjugate_apply(n, nx, ny, nz);
    let (mx, my, mz) = apply(n, nx, ny, nz);
    lemma_kernel(n.cof_xx(), n.cof_xy(), n.cof_xz(), mx, my, mz, n.det(), nx);
    lemma_kernel(n.cof_xy(), n.cof_yy(), n.cof_yz(), mx, my, mz, n.det(), ny);
    lemma_kernel(n.cof_xz(), n.cof_yz(), n.cof_zz(), mx, my, mz, n.det(), nz);
}

/// Without a solution the references are coplanar: the normal equations are
/// singular for no other reason.
pub proof fn lemma_no_solution_means_coplanar(refs: Seq<Point>, sq: Seq<u64>)
    requires
        refs.len() == sq.len(),
        refs.len() >= 4,
        solution(refs, sq) is None,
    ensures
        coplanar(refs),
{
    let rs = rows(refs, sq);
    let n = normal_of(rs);
    let (wx, wy, wz) = lemma_kernel_vector(n);
    lemma_quadratic_form(rs, wx, wy, wz);
    assert(wx * 0 == 0 && wy * 0 == 0 && wz * 0 == 0);
    lemma_sum_of_squares_zero(rs, wx, wy, wz);
    let o = refs[0];
    let k = wx * o.x + wy * o.y + wz * o.z;
    assert forall|i: int| 0 <= i < refs.len() implies wx * (#[trigger] refs[i]).x + wy * refs[i].y
        + wz * refs[i].z == k by {
        if i > 0 {
            let p = refs[i];
            assert(row_dot(rs[i - 1], wx, wy, wz) == 0);
            assert(rs[i - 1].ax == p.x - o.x && rs[i - 1].ay == p.y - o.y && rs[i - 1].az == p.z
                - o.z);
            lemma_offset_to_plane(
                wx, wy, wz,
                o.x as int, o.y as int, o.z as int,
                p.x as int, p.y as int, p.z as int,
            );
        }
    }
    assert(in_plane(refs, wx, wy, wz, k));
}

/// There is a solution exactly where the references are not coplanar,
/// whatever the squared distances are.
pub proof fn lemma_solvable_iff_not_coplanar(refs: Seq<Point>, sq: Seq<u64>)
    requires
        refs.len() == sq.len(),
        refs.len() >= 4,
    ensures
        solution(refs, sq) is None <==> coplanar(refs),
{
    if solution(refs, sq) is None {
        lemma_no_solution_means_coplanar(refs, sq);
    }
    if coplanar(refs) {
        let (nx, ny, nz, k) = choose|nx: int, ny: int, nz: int, k: int| in_plane(refs, nx, ny, nz, k);
        lemma_coplanar_has_no_solution(refs, sq, nx, ny, nz, k);
    }
}

/// Order invariance: the pairs after the first can come in any order. Where
/// the second input holds the pairs of the first, rearranged by a permutation
/// that keeps the pivot in its place, both have the same solution, or both
/// have none, whatever the squared distances are.
pub proof fn lemma_order_invariance(
    refs: Seq<Point>,
    sq: Seq<u64>,
    refs2: Seq<Point>,
    sq2: Seq<u64>,
    perm: Seq<int>,
)
    requires
        refs.len() == sq.len(),
        refs2.len() == sq2.len(),
        refs.len() == refs2.len(),
        refs.len() >= 4,
        is_permutation(perm, refs.len()),
        perm[0] == 0,
        forall|i: int| 0 <= i < refs2.len() ==> #[trigger] refs2[i] == refs[perm[i]],
        forall|i: int| 0 <= i < sq2.len() ==> #[trigger] sq2[i] == sq[perm[i]],
    ensures
        solution(refs2, sq2) == solution(refs, sq),
{
    let a = rows(refs, sq);
    let b = rows(refs2, sq2);
    let tail = Seq::new(a.len(), |i: int| perm[i + 1] - 1);
    assert(refs2[0] == refs[perm[0]]);
    assert(sq2[0] == sq[perm[0]]);
    assert forall|i: int| 0 <= i < a.len() implies 0 <= #[trigger] tail[i] < a.len() && b[i]
        == a[tail[i]] by {
        assert(perm[0] != perm[i + 1]);
        assert(refs2[i + 1] == refs[perm[i + 1]]);
        assert(sq2[i + 1] == sq[perm[i + 1]]);
    }
    assert forall|i: int, k: int| 0 <= i < k < a.len() implies #[trigger] tail[i]
        != #[trigger] tail[k] by {
        assert(perm[i + 1] != perm[k + 1]);
    }
    lemma_normal_of_permuted_rows(a, b, tail);
}

/// Rearranged references lie in one plane exactly where the first ones do.
pub proof fn lemma_coplanar_permuted(refs: Seq<Point>, refs2: Seq<Point>, perm: Seq<int>)
    requires
        refs.len() == refs2.len(),
        is_permutation(perm, refs.len()),
        forall|i: int| 0 <= i < refs2.len() ==> #[trigger] refs2[i] == refs[perm[i]],
    ensures
        coplanar(refs2) <==> coplanar(refs),
{
    if coplanar(refs) {
        let (nx, ny, nz, k) = choose|nx: int, ny: int, nz: int, k: int| in_plane(refs, nx, ny, nz, k);
        assert forall|i: int| 0 <= i < refs2.len() implies nx * (#[trigger] refs2[i]).x + ny
            * refs2[i].y + nz * refs2[i].z == k by {
            assert(refs2[i] == refs[perm[i]]);
        }
        assert(in_plane(refs2, nx, ny, nz, k));
    }
    if coplanar(refs2) {
        let (nx, ny, nz, k) = choose|nx: int, ny: int, nz: int, k: int| in_plane(refs2, nx, ny, nz, k);
        assert forall|j: int| 0 <= j < refs.len() implies nx * (#[trigger] refs[j]).x + ny
            * refs[j].y + nz * refs[j].z == k by {
            let i = lemma_permutation_is_onto(perm, refs.len(), j);
            assert(refs2[i] == refs[perm[i]]);
        }
        assert(in_plane(refs, nx, ny, nz, k));
    }
}

/// Order invariance with exact distances: where the references do not lie in
/// one plane and every squared distance is the true one to a position `p`,
/// the pairs can come in any order, with any of them as the pivot. Both
/// orders have a solution, and it is the same position.
pub proof fn lemma_order_invariance_exact(
    refs: Seq<Point>,
    sq: Seq<u64>,
    refs2: Seq<Point>,
    sq2: Seq<u64>,
    perm: Seq<int>,
    p: Fraction,
)
    requires
        refs.len() == sq.len(),
        refs2.len() == sq2.len(),
        refs.len() == refs2.len(),
        refs.len() >= 4,
        is_permutation(perm, refs.len()),
        forall|i: int| 0 <= i < refs2.len() ==> #[trigger] refs2[i] == refs[perm[i]],
        forall|i: int| 0 <= i < sq2.len() ==> #[trigger] sq2[i] == sq[perm[i]],
        p.scale != 0,
        exact(refs, sq, p),
        !coplanar(refs),
    ensures
        solution(refs, sq) is Some,
        solution(refs2, sq2) is Some,
        solution(refs, sq).unwrap().same_position(solution(refs2, sq2).unwrap()),
{
    lemma_coplanar_permuted(refs, refs2, perm);
    assert forall|i: int| 0 <= i < refs2.len() implies exact_at(
        #[trigger] refs2[i],
        sq2[i] as int,
        p,
    ) by {
        assert(refs2[i] == refs[perm[i]]);
        assert(sq2[i] == sq[perm[i]]);
        assert(exact_at(refs[perm[i]], sq[perm[i]] as int, p));
    }
    lemma_exact_recovery(refs, sq, p);
    lemma_exact_recovery(refs2, sq2, p);
    let e = solution(refs, sq).unwrap();
    let f = solution(refs2, sq2).unwrap();
    lemma_cross(e.x, e.scale, f.x, f.scale, p.x, p.scale);
    lemma_cross(e.y, e.scale, f.y, f.scale, p.y, p.scale);
    lemma_cross(e.z, e.scale, f.z, f.scale, p.z, p.scale);
}

/// The denominator of a solution is positive.
pub proof fn lemma_scale_is_positive(refs: Seq<Point>, sq: Seq<u64>)
    ensures
        solution(refs, sq) matches Some(e) ==> e.scale > 0,
{
    lemma_det_nonnegative(rows(refs, sq));
}

/// Idempotence: the input fixes the outcome. Two outcomes for the same
/// references and squared distances are equal in every field, or both are
/// nothing.
pub proof fn lemma_outcome_is_unique(
    refs: Seq<Point>,
    sq: Seq<u64>,
    first: Option<Estimate>,
    second: Option<Estimate>,
)
    requires
        is_outcome(first, refs, sq),
        is_outcome(second, refs, sq),
    ensures
        first == second,
{
    if first is Some {
        assert(first.unwrap()@ == second.unwrap()@);
    }
}

/// With exact squared distances to the position `p`, `p.scale` times a row's
/// right-hand side is twice its offset against the position's own offset
/// from the pivot, taken `p.scale` times.
pub proof fn lemma_exact_row(pivot: Point, d0: int, pt: Point, d: int, p: Fraction)
    requires
        p.scale != 0,
        exact_at(pivot, d0, p),
        exact_at(pt, d, p),
    ensures
        ({
            let r = row_of(pivot, d0, pt, d);
            p.scale * r.c == 2 * row_dot(
                r,
                p.x - p.scale * pivot.x,
                p.y - p.scale * pivot.y,
                p.z - p.scale * pivot.z,
            )
        }),
{
    let q = p.scale;
    let r = row_of(pivot, d0, pt, d);
    let (wx, wy, wz) = (p.x - q * pivot.x, p.y - q * pivot.y, p.z - q * pivot.z);
    lemma_exact_axis(pivot.x as int, pt.x as int, p.x, q);
    lemma_exact_axis(pivot.y as int, pt.y as int, p.y, q);
    lemma_exact_axis(pivot.z as int, pt.z as int, p.z, q);
    lemma_exact_row_sum(
        q, d0, d,
        r.ax * r.ax, r.ay * r.ay, r.az * r.az,
        r.ax * wx, r.ay * wy, r.az * wz,
        (pivot.x * q - p.x) * (pivot.x * q - p.x),
        (pivot.y * q - p.y) * (pivot.y * q - p.y),
        (pivot.z * q - p.z) * (pivot.z * q - p.z),
        (pt.x * q - p.x) * (pt.x * q - p.x),
        (pt.y * q - p.y) * (pt.y * q - p.y),
        (pt.z * q - p.z) * (pt.z * q - p.z),
    );
}

proof fn lemma_exact_axis(o: int, r: int, p: int, q: int)
    ensures
        (o * q - p) * (o * q - p) - (r * q - p) * (r * q - p) + (q * q) * ((r - o) * (r - o)) == (2
            * q) * ((r - o) * (p - q * o)),
{
    broadcast use vstd::arithmetic::mul::group_mul_is_commutative_and_distributive;
    broadcast use vstd::arithmetic::mul::lemma_mul_is_associative;
}

proof fn lemma_exact_row_sum(
    q: int, d0: int, d: int,
    sx: int, sy: int, sz: int,
    tx: int, ty: int, tz: int,
    ox: int, oy: int, oz: int,
    rx: int, ry: int, rz: int,
)
    requires
        q != 0,
        d0 * (q * q) == ox + oy + oz,
        d * (q * q) == rx + ry + rz,
        ox - rx + (q * q) * sx == (2 * q) * tx,
        oy - ry + (q * q) * sy == (2 * q) * ty,
        oz - rz + (q * q) * sz == (2 * q) * tz,
    ensures
        q * (d0 - d + (sx + sy + sz)) == 2 * (tx + ty + tz),
{
    let c = d0 - d + (sx + sy + sz);
    let t = tx + ty + tz;
    let qq = q * q;
    assert(qq * c == d0 * qq - d * qq + qq * sx + qq * sy + qq * sz) by (nonlinear_arith)
        requires
            c == d0 - d + (sx + sy + sz),
    ;
    assert((2 * q) * tx + (2 * q) * ty + (2 * q) * tz == q * (2 * t)) by (nonlinear_arith)
        requires
            t == tx + ty + tz,
    ;
    assert(qq * c == q * (q * c)) by (nonlinear_arith)
        requires
            qq == q * q,
    ;
    vstd::arithmetic::mul::lemma_mul_equality_converse(q, q * c, 2 * t);
}

proof fn lemma_recover_axis(
    a: int, b: int, c: int,
    xc: int, yc: int, zc: int,
    mx: int, my: int, mz: int,
    det: int, w: int, o: int, p: int, q: int,
)
    requires
        a * mx + b * my + c * mz == det * w,
        q * xc == 2 * mx,
        q * yc == 2 * my,
        q * zc == 2 * mz,
        w == p - q * o,
    ensures
        (o * (2 * det) + (a * xc + b * yc + c * zc)) * q == p * (2 * det),
{
    assert((a * xc) * q == 2 * (a * mx)) by (nonlinear_arith)
        requires
            q * xc == 2 * mx,
    ;
    assert((b * yc) * q == 2 * (b * my)) by (nonlinear_arith)
        requires
            q * yc == 2 * my,
    ;
    assert((c * zc) * q == 2 * (c * mz)) by (nonlinear_arith)
        requires
            q * zc == 2 * mz,
    ;
    let u = a * xc + b * yc + c * zc;
    let ax = a * xc;
    let by = b * yc;
    let cz = c * zc;
    assert(u * q == ax * q + by * q + cz * q) by (nonlinear_arith)
        requires
            u == ax + by + cz,
    ;
    let e = o * (2 * det);
    assert((e + u) * q == e * q + u * q) by (nonlinear_arith);
    assert(e * q + 2 * (det * w) == p * (2 * det)) by (nonlinear_arith)
        requires
            e == o * (2 * det),
            w == p - q * o,
    ;
}

/// Two points of one plane differ by a vector orthogonal to its normal.
proof fn lemma_offset_in_plane(
    nx: int, ny: int, nz: int,
    ox: int, oy: int, oz: int,
    px: int, py: int, pz: int,
    k: int,
)
    requires
        nx * ox + ny * oy + nz * oz == k,
        nx * px + ny * py + nz * pz == k,
    ensures
        (px - ox) * nx + (py - oy) * ny + (pz - oz) * nz == 0,
{
    broadcast use vstd::arithmetic::mul::group_mul_is_commutative_and_distributive;
}

/// A component of a vector that the matrix sends to zero is zero, or the
/// determinant is.
proof fn lemma_kernel(a: int, b: int, c: int, mx: int, my: int, mz: int, det: int, w: int)
    requires
        a * mx + b * my + c * mz == det * w,
        mx == 0 && my == 0 && mz == 0,
    ensures
        w == 0 || det == 0,
{
    assert(a * 0 == 0 && b * 0 == 0 && c * 0 == 0);
    assert(w == 0 || det == 0) by (nonlinear_arith)
        requires
            det * w == 0,
    ;
}

/// A reference whose offset from the pivot is orthogonal to a vector lies in
/// the plane through the pivot with that normal.
proof fn lemma_offset_to_plane(
    nx: int, ny: int, nz: int,
    ox: int, oy: int, oz: int,
    px: int, py: int, pz: int,
)
    requires
        (px - ox) * nx + (py - oy) * ny + (pz - oz) * nz == 0,
    ensures
        nx * px + ny * py + nz * pz == nx * ox + ny * oy + nz * oz,
{
    broadcast use vstd::arithmetic::mul::group_mul_is_commutative_and_distributive;
}

proof fn lemma_cross(ex: int, s: int, fx: int, t: int, px: int, q: int)
    requires
        q != 0,
        ex * q == px * s,
        fx * q == px * t,
    ensures
        ex * t == fx * s,
{
    assert(q * (ex * t) == (px * s) * t) by (nonlinear_arith)
        requires
            ex * q == px * s,
    ;
    assert(q * (fx * s) == (px * s) * t) by (nonlinear_arith)
        requires
            fx * q == px * t,
    ;
    vstd::arithmetic::mul::lemma_mul_equality_converse(q, ex * t, fx * s);
}

} // verus!
