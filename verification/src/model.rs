//! The mathematical model: points, linearized rows, normal equations and
//! their exact solution.

use vstd::prelude::*;

verus! {

/// A position on the integer grid. The unit is the caller's choice.
#[derive(Clone, Copy, Debug, PartialEq, Eq, Structural)]
pub struct Point {
    pub x: i32,
    pub y: i32,
    pub z: i32,
}

/// Largest absolute value of a reference coordinate.
pub const COORD_LIMIT: i32 = 4096;

/// Largest squared distance that can be given.
pub const SQUARED_DISTANCE_LIMIT: u64 = 0x1000_0000;

/// Largest number of references in one call.
pub const MAX_REFERENCES: usize = 512;

/// Fewest references that can fix a position in space.
pub const MIN_REFERENCES: usize = 4;

/// One linearized constraint `2 * (ax, ay, az) . offset == c`, where `offset`
/// is the unknown position relative to the pivot.
pub struct Row {
    pub ax: int,
    pub ay: int,
    pub az: int,
    pub c: int,
}

/// The normal equations of a set of rows: the entries of the symmetric matrix
/// `At * A` and of the vector `At * c`.
pub struct Normal {
    pub xx: int,
    pub xy: int,
    pub xz: int,
    pub yy: int,
    pub yz: int,
    pub zz: int,
    pub xc: int,
    pub yc: int,
    pub zc: int,
}

/// A point with rational coordinates `(x / scale, y / scale, z / scale)`.
pub struct Fraction {
    pub x: int,
    pub y: int,
    pub z: int,
    pub scale: int,
}

/// Squared Euclidean distance between two integer positions.
pub open spec fn squared_distance(ax: int, ay: int, az: int, bx: int, by: int, bz: int) -> int {
    (ax - bx) * (ax - bx) + (ay - by) * (ay - by) + (az - bz) * (az - bz)
}

/// The row that a reference contributes: its offset from the pivot, and
/// `d0^2 - d^2 + |offset|^2`, which is twice the right-hand side of the
/// linearized sphere equation.
pub open spec fn row_of(pivot: Point, pivot_sq: int, p: Point, sq: int) -> Row {
    let ax = p.x - pivot.x;
    let ay = p.y - pivot.y;
    let az = p.z - pivot.z;
    Row { ax, ay, az, c: pivot_sq - sq + (ax * ax + ay * ay + az * az) }
}

/// The rows of a reference set: one for each reference after the first, which
/// is the pivot.
pub open spec fn rows(refs: Seq<Point>, sq: Seq<u64>) -> Seq<Row> {
    if refs.len() == 0 {
        Seq::empty()
    } else {
        Seq::new(
            (refs.len() - 1) as nat,
            |i: int| row_of(refs[0], sq[0] as int, refs[i + 1], sq[i + 1] as int),
        )
    }
}

impl Normal {
    /// The normal equations of no rows.
    pub open spec fn zero() -> Normal {
        Normal { xx: 0, xy: 0, xz: 0, yy: 0, yz: 0, zz: 0, xc: 0, yc: 0, zc: 0 }
    }

    /// The normal equations with one more row.
    pub open spec fn plus(self, r: Row) -> Normal {
        Normal {
            xx: self.xx + r.ax * r.ax,
            xy: self.xy + r.ax * r.ay,
            xz: self.xz + r.ax * r.az,
            yy: self.yy + r.ay * r.ay,
            yz: self.yz + r.ay * r.az,
            zz: self.zz + r.az * r.az,
            xc: self.xc + r.ax * r.c,
            yc: self.yc + r.ay * r.c,
            zc: self.zc + r.az * r.c,
        }
    }

    /// The cofactors of the matrix, which is symmetric, so that six of them
    /// are all: this one belongs to the entry `xx`.
    pub open spec fn cof_xx(self) -> int {
        self.yy * self.zz - self.yz * self.yz
    }

    /// The cofactor of the entry `xy`.
    pub open spec fn cof_xy(self) -> int {
        self.xz * self.yz - self.xy * self.zz
    }

    /// The cofactor of the entry `xz`.
    pub open spec fn cof_xz(self) -> int {
        self.xy * self.yz - self.xz * self.yy
    }

    /// The cofactor of the entry `yy`.
    pub open spec fn cof_yy(self) -> int {
        self.xx * self.zz - self.xz * self.xz
    }

    /// The cofactor of the entry `yz`.
    pub open spec fn cof_yz(self) -> int {
        self.xy * self.xz - self.xx * self.yz
    }

    /// The cofactor of the entry `zz`.
    pub open spec fn cof_zz(self) -> int {
        self.xx * self.yy - self.xy * self.xy
    }

    /// Determinant of the matrix `At * A`.
    pub open spec fn det(self) -> int {
        self.xx * self.cof_xx() + self.xy * self.cof_xy() + self.xz * self.cof_xz()
    }

    /// First component of `adj(At * A) * At * c`.
    pub open spec fn num_x(self) -> int {
        self.cof_xx() * self.xc + self.cof_xy() * self.yc + self.cof_xz() * self.zc
    }

    /// Second component of `adj(At * A) * At * c`.
    pub open spec fn num_y(self) -> int {
        self.cof_xy() * self.xc + self.cof_yy() * self.yc + self.cof_yz() * self.zc
    }

    /// Third component of `adj(At * A) * At * c`.
    pub open spec fn num_z(self) -> int {
        self.cof_xz() * self.xc + self.cof_yz() * self.yc + self.cof_zz() * self.zc
    }
}

/// The normal equations of a sequence of rows.
pub open spec fn normal_of(rows: Seq<Row>) -> Normal
    decreases rows.len(),
{
    if rows.len() == 0 {
        Normal::zero()
    } else {
        normal_of(rows.drop_last()).plus(rows.last())
    }
}

/// What the call admits: as many squared distances as references, at least
/// four and at most `MAX_REFERENCES` of them, every coordinate within
/// `COORD_LIMIT` of the origin and every squared distance at most
/// `SQUARED_DISTANCE_LIMIT`.
pub open spec fn admissible(refs: Seq<Point>, sq: Seq<u64>) -> bool {
    &&& refs.len() == sq.len()
    &&& MIN_REFERENCES <= refs.len() <= MAX_REFERENCES
    &&& forall|i: int| 0 <= i < refs.len() ==> in_range(#[trigger] refs[i])
    &&& forall|i: int| 0 <= i < sq.len() ==> #[trigger] sq[i] <= SQUARED_DISTANCE_LIMIT
}

/// Every coordinate is within `COORD_LIMIT` of zero.
pub open spec fn in_range(p: Point) -> bool {
    &&& -COORD_LIMIT <= p.x <= COORD_LIMIT
    &&& -COORD_LIMIT <= p.y <= COORD_LIMIT
    &&& -COORD_LIMIT <= p.z <= COORD_LIMIT
}

/// The least-squares position for the given references and squared distances:
/// the pivot plus `(At * A)^-1 * At * c / 2`, written over the common
/// denominator `2 * det(At * A)`. There is none where the determinant is zero.
pub open spec fn solution(refs: Seq<Point>, sq: Seq<u64>) -> Option<Fraction> {
    let n = normal_of(rows(refs, sq));
    let scale = 2 * n.det();
    if n.det() == 0 {
        None
    } else {
        Some(
            Fraction {
                x: refs[0].x * scale + n.num_x(),
                y: refs[0].y * scale + n.num_y(),
                z: refs[0].z * scale + n.num_z(),
                scale,
            },
        )
    }
}

/// Every reference lies in the plane `nx * x + ny * y + nz * z == k`, whose
/// normal `(nx, ny, nz)` is not zero.
pub open spec fn in_plane(refs: Seq<Point>, nx: int, ny: int, nz: int, k: int) -> bool {
    &&& nx != 0 || ny != 0 || nz != 0
    &&& forall|i: int|
        0 <= i < refs.len() ==> nx * (#[trigger] refs[i]).x + ny * refs[i].y + nz * refs[i].z == k
}

/// The references lie in one plane: degenerate geometry. References on one
/// line, or all in one place, are coplanar too.
pub open spec fn coplanar(refs: Seq<Point>) -> bool {
    exists|nx: int, ny: int, nz: int, k: int| in_plane(refs, nx, ny, nz, k)
}

impl Fraction {
    /// Both fractions stand for the same position.
    pub open spec fn same_position(self, other: Fraction) -> bool {
        &&& self.x * other.scale == other.x * self.scale
        &&& self.y * other.scale == other.y * self.scale
        &&& self.z * other.scale == other.z * self.scale
    }
}

/// `sq` is the squared distance from the reference `r` to the position `p`,
/// exactly: both sides are taken `p.scale^2` times.
pub open spec fn exact_at(r: Point, sq: int, p: Fraction) -> bool {
    sq * (p.scale * p.scale) == squared_distance(
        r.x * p.scale,
        r.y * p.scale,
        r.z * p.scale,
        p.x,
        p.y,
        p.z,
    )
}

/// Every squared distance is the exact one from its reference to `p`.
pub open spec fn exact(refs: Seq<Point>, sq: Seq<u64>, p: Fraction) -> bool {
    forall|i: int| 0 <= i < refs.len() ==> exact_at(#[trigger] refs[i], sq[i] as int, p)
}

} // verus!
