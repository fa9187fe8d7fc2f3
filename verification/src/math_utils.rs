//! Fixed-point vector geometry used by the solvers.

use vstd::prelude::*;

verus! {

/// Number of fixed-point steps in one unit of length, or in one radian.
pub const UNIT: i64 = 1_000_000;

/// Largest magnitude of a component of a vector that the geometry functions
/// accept: two to the fortieth steps, about a million units.
pub const COORD_MAX: i64 = 1_099_511_627_776;

/// Largest magnitude of a component of a vector of which only the direction
/// counts: an axis, a normal, a forward vector, a quaternion. Products of four
/// such components have to fit the arithmetic, so the bound is two to the
/// thirtieth steps.
pub const DIRECTION_MAX: i64 = 1_073_741_824;

/// A vector of three mathematical integers: the model of [`Vec3`].
pub struct SpecVec3 {
    pub x: int,
    pub y: int,
    pub z: int,
}

/// A vector of three fixed-point components.
#[derive(Clone, Copy, Debug, PartialEq, Eq, Structural)]
pub struct Vec3 {
    pub x: i64,
    pub y: i64,
    pub z: i64,
}

/// A quaternion of four fixed-point components; a rotation when its length
/// is [`UNIT`].
#[derive(Clone, Copy, Debug, PartialEq, Eq, Structural)]
pub struct Quat {
    pub x: i64,
    pub y: i64,
    pub z: i64,
    pub w: i64,
}

/// A rigid transform: a rotation followed by a translation.
#[derive(Clone, Copy, Debug, PartialEq, Eq, Structural)]
pub struct Pose {
    pub translation: Vec3,
    pub rotation: Quat,
}

impl View for Vec3 {
    type V = SpecVec3;

    open spec fn view(&self) -> SpecVec3 {
        SpecVec3 { x: self.x as int, y: self.y as int, z: self.z as int }
    }
}

/// The inner product of two vectors.
pub open spec fn dot(a: SpecVec3, b: SpecVec3) -> int {
    a.x * b.x + a.y * b.y + a.z * b.z
}

/// The vector product of two vectors, right-handed.
pub open spec fn cross(a: SpecVec3, b: SpecVec3) -> SpecVec3 {
    SpecVec3 {
        x: a.y * b.z - a.z * b.y,
        y: a.z * b.x - a.x * b.z,
        z: a.x * b.y - a.y * b.x,
    }
}

/// The magnitude of an integer.
pub open spec fn abs(a: int) -> int {
    if a < 0 { -a } else { a }
}

/// Every component of `v` has magnitude at most `bound`.
pub open spec fn within(v: SpecVec3, bound: int) -> bool {
    abs(v.x) <= bound && abs(v.y) <= bound && abs(v.z) <= bound
}

/// The quotient of `a` by a positive `b`, rounded toward zero.
pub open spec fn trunc_div(a: int, b: int) -> int {
    if a >= 0 { a / b } else { -((-a) / b) }
}

/// Divides `a` by `b`, rounding toward zero.
fn div_toward_zero(a: i128, b: i128) -> (q: i128)
    requires
        b > 0,
        a > i128::MIN,
    ensures
        q == trunc_div(a as int, b as int),
{
    if a >= 0 {
        a / b
    } else {
        -((-a) / b)
    }
}

/// A vector that points along the second axis with length `y`.
pub fn vec3_y(y: i64) -> (v: Vec3)
    ensures
        v@ == (SpecVec3 { x: 0, y: y as int, z: 0 }),
{
    Vec3 { x: 0, y, z: 0 }
}

/// Three times [`COORD_MAX`]: what the projection of a vector within
/// [`COORD_MAX`] stays within, and what a projection takes.
pub const WIDE_MAX: i64 = 3_298_534_883_328;

/// `v` without its component along `n`, each component of the part taken off
/// rounded toward zero.
pub open spec fn projection(v: SpecVec3, n: SpecVec3) -> SpecVec3 {
    SpecVec3 {
        x: v.x - trunc_div(n.x * dot(v, n), dot(n, n)),
        y: v.y - trunc_div(n.y * dot(v, n), dot(n, n)),
        z: v.z - trunc_div(n.z * dot(v, n), dot(n, n)),
    }
}

/// What a projection onto the plane with the normal `n` takes off `p`.
pub open spec fn minus_projection(p: SpecVec3, n: SpecVec3) -> SpecVec3 {
    SpecVec3 {
        x: p.x - projection(p, n).x,
        y: p.y - projection(p, n).y,
        z: p.z - projection(p, n).z,
    }
}

/// The two numbers whose `atan2` is the signed angle from one vector to
/// another about an axis. Both are products of the lengths of the two
/// vectors, in the same units.
#[derive(Clone, Copy, Debug, PartialEq, Eq, Structural)]
pub struct AngleTerms {
    /// The vector product of the two vectors, taken along the axis.
    pub sine: i128,
    /// The inner product of the two vectors.
    pub cosine: i128,
}

/// The sine term of the angle from `a` to `b` about `n`: the vector product
/// of `a` and `b` taken along `n`, which has the length [`UNIT`]. The
/// division that takes that length out again rounds toward zero.
pub open spec fn sine_term(a: SpecVec3, b: SpecVec3, n: SpecVec3) -> int {
    trunc_div(dot(cross(a, b), n), UNIT as int)
}

/// The cosine term of the angle from `a` to `b`.
pub open spec fn cosine_term(a: SpecVec3, b: SpecVec3) -> int {
    dot(a, b)
}

/// Twice a product is at most the sum of the squares.
proof fn lemma_twice_product(x: int, y: int)
    ensures
        2 * (x * y) <= x * x + y * y,
{
    assert(2 * (x * y) <= x * x + y * y) by (nonlinear_arith);
}

/// The product of two products, with the factors paired the other way.
proof fn lemma_swap_pairs(a: int, b: int, c: int, d: int)
    ensures
        (a * b) * (c * d) == (a * d) * (c * b),
{
    assert((a * b) * (c * d) == (a * d) * (c * b)) by (nonlinear_arith);
}

/// The inner product of two vectors is bounded by their lengths.
proof fn lemma_dot_squared(v: SpecVec3, n: SpecVec3)
    ensures
        dot(v, n) * dot(v, n) <= dot(v, v) * dot(n, n),
{
    let a = v.x * n.x;
    let b = v.y * n.y;
    let c = v.z * n.z;
    let xy = v.x * n.y;
    let yx = v.y * n.x;
    let xz = v.x * n.z;
    let zx = v.z * n.x;
    let yz = v.y * n.z;
    let zy = v.z * n.y;
    let d = a + b + c;
    assert(d * d == a * a + b * b + c * c + 2 * (a * b) + 2 * (a * c) + 2 * (b * c))
        by (nonlinear_arith)
        requires
            d == a + b + c,
    ;
    lemma_swap_pairs(v.x, n.x, v.y, n.y);
    lemma_swap_pairs(v.x, n.x, v.z, n.z);
    lemma_swap_pairs(v.y, n.y, v.z, n.z);
    assert(a * b == xy * yx);
    assert(a * c == xz * zx);
    assert(b * c == yz * zy);
    lemma_twice_product(xy, yx);
    lemma_twice_product(xz, zx);
    lemma_twice_product(yz, zy);
    let v1 = v.x * v.x;
    let v2 = v.y * v.y;
    let v3 = v.z * v.z;
    let n1 = n.x * n.x;
    let n2 = n.y * n.y;
    let n3 = n.z * n.z;
    assert((v1 + v2 + v3) * (n1 + n2 + n3) == v1 * n1 + v1 * n2 + v1 * n3 + v2 * n1 + v2 * n2 + v2
        * n3 + v3 * n1 + v3 * n2 + v3 * n3) by (nonlinear_arith);
    lemma_swap_pairs(v.x, v.x, n.x, n.x);
    lemma_swap_pairs(v.x, v.x, n.y, n.y);
    lemma_swap_pairs(v.x, v.x, n.z, n.z);
    lemma_swap_pairs(v.y, v.y, n.x, n.x);
    lemma_swap_pairs(v.y, v.y, n.y, n.y);
    lemma_swap_pairs(v.y, v.y, n.z, n.z);
    lemma_swap_pairs(v.z, v.z, n.x, n.x);
    lemma_swap_pairs(v.z, v.z, n.y, n.y);
    lemma_swap_pairs(v.z, v.z, n.z, n.z);
    assert(v1 * n1 == a * a);
    assert(v1 * n2 == xy * xy);
    assert(v1 * n3 == xz * xz);
    assert(v2 * n1 == yx * yx);
    assert(v2 * n2 == b * b);
    assert(v2 * n3 == yz * yz);
    assert(v3 * n1 == zx * zx);
    assert(v3 * n2 == zy * zy);
    assert(v3 * n3 == c * c);
}

/// The inner product of vectors within `b` is within `3 * b * b`.
proof fn lemma_dot_bound(v: SpecVec3, n: SpecVec3, b: int, c: int)
    requires
        within(v, b),
        within(n, c),
    ensures
        abs(dot(v, n)) <= 3 * (b * c),
{
    assert(abs(v.x * n.x) <= b * c && abs(v.y * n.y) <= b * c && abs(v.z * n.z) <= b * c)
        by (nonlinear_arith)
        requires
            within(v, b),
            within(n, c),
    ;
}

/// The part that a projection takes off a component is less than twice the
/// bound of the vector.
proof fn lemma_projection_part(v: SpecVec3, n: SpecVec3, ni: int, b: int)
    requires
        within(v, b),
        b >= 1,
        dot(n, n) > 0,
        ni == n.x || ni == n.y || ni == n.z,
    ensures
        abs(trunc_div(ni * dot(v, n), dot(n, n))) < 2 * b,
{
    let d = dot(v, n);
    let nn = dot(n, n);
    let vv = dot(v, v);
    let x = ni * d;
    lemma_dot_squared(v, n);
    assert(0 <= ni * ni <= nn) by (nonlinear_arith)
        requires
            nn == n.x * n.x + n.y * n.y + n.z * n.z,
            ni == n.x || ni == n.y || ni == n.z,
    ;
    assert(0 <= vv <= 3 * (b * b)) by (nonlinear_arith)
        requires
            vv == v.x * v.x + v.y * v.y + v.z * v.z,
            within(v, b),
    ;
    assert(d * d >= 0) by (nonlinear_arith);
    assert(x * x <= nn * (3 * (b * b) * nn)) by (nonlinear_arith)
        requires
            x == ni * d,
            0 <= ni * ni <= nn,
            0 <= d * d <= vv * nn,
            0 <= vv <= 3 * (b * b),
            nn > 0,
    ;
    assert(abs(x) < 2 * b * nn) by (nonlinear_arith)
        requires
            x * x <= nn * (3 * (b * b) * nn),
            nn > 0,
            b >= 1,
    ;
    assert(abs(x) / nn < 2 * b) by (nonlinear_arith)
        requires
            0 <= abs(x) < 2 * b * nn,
            nn > 0,
    ;
}

/// What is left when a product is divided toward zero is smaller than the
/// divisor.
proof fn lemma_trunc_div_rest(a: int, b: int)
    requires
        b > 0,
    ensures
        abs(a - trunc_div(a, b) * b) < b,
{
    assert(abs(a - trunc_div(a, b) * b) < b) by (nonlinear_arith)
        requires
            b > 0,
            trunc_div(a, b) == (if a >= 0 {
                a / b
            } else {
                -((-a) / b)
            }),
    ;
}

/// A multiple of a sum of three, term by term.
proof fn lemma_spread(a: int, b: int, c: int, m: int)
    ensures
        (a + b + c) * m == a * m + b * m + c * m,
{
    assert((a + b + c) * m == a * m + b * m + c * m) by (nonlinear_arith);
}

/// One component's share of the inner product of a projection with the
/// normal, in terms of what the division left over.
proof fn lemma_rest_share(ni: int, d: int, q: int, nn: int)
    ensures
        ni * (ni * d - q * nn) == (ni * ni) * d - (q * ni) * nn,
{
    assert(ni * (ni * d - q * nn) == (ni * ni) * d - (q * ni) * nn) by (nonlinear_arith);
}

/// A projection onto a plane lies in the plane up to rounding: its inner
/// product with the plane's normal is smaller than the sum of the magnitudes
/// of the normal's components.
pub proof fn lemma_projection_in_plane(v: SpecVec3, n: SpecVec3)
    requires
        dot(n, n) > 0,
    ensures
        abs(dot(projection(v, n), n)) < abs(n.x) + abs(n.y) + abs(n.z),
{
    let d = dot(v, n);
    let nn = dot(n, n);
    let p = projection(v, n);
    let qx = trunc_div(n.x * d, nn);
    let qy = trunc_div(n.y * d, nn);
    let qz = trunc_div(n.z * d, nn);
    let rx = n.x * d - qx * nn;
    let ry = n.y * d - qy * nn;
    let rz = n.z * d - qz * nn;
    lemma_trunc_div_rest(n.x * d, nn);
    lemma_trunc_div_rest(n.y * d, nn);
    lemma_trunc_div_rest(n.z * d, nn);
    let e = dot(p, n);
    let taken = qx * n.x + qy * n.y + qz * n.z;
    assert(e == d - taken) by (nonlinear_arith)
        requires
            e == (v.x - qx) * n.x + (v.y - qy) * n.y + (v.z - qz) * n.z,
            d == v.x * n.x + v.y * n.y + v.z * n.z,
            taken == qx * n.x + qy * n.y + qz * n.z,
    ;
    lemma_rest_share(n.x, d, qx, nn);
    lemma_rest_share(n.y, d, qy, nn);
    lemma_rest_share(n.z, d, qz, nn);
    lemma_spread(n.x * n.x, n.y * n.y, n.z * n.z, d);
    lemma_spread(qx * n.x, qy * n.y, qz * n.z, nn);
    assert(nn * e == nn * d - taken * nn) by (nonlinear_arith)
        requires
            e == d - taken,
    ;
    assert(nn * d == d * nn) by (nonlinear_arith);
    assert(nn * e == n.x * rx + n.y * ry + n.z * rz);
    let s = abs(n.x) + abs(n.y) + abs(n.z);
    assert(s >= 1) by (nonlinear_arith)
        requires
            nn == n.x * n.x + n.y * n.y + n.z * n.z,
            nn > 0,
            s == abs(n.x) + abs(n.y) + abs(n.z),
    ;
    lemma_product_bound(n.x, rx, nn - 1);
    lemma_product_bound(n.y, ry, nn - 1);
    lemma_product_bound(n.z, rz, nn - 1);
    lemma_spread(abs(n.x), abs(n.y), abs(n.z), nn - 1);
    assert(-(s * (nn - 1)) <= nn * e <= s * (nn - 1));
    assert(abs(e) < s) by (nonlinear_arith)
        requires
            -(s * (nn - 1)) <= nn * e <= s * (nn - 1),
            nn > 0,
            s >= 1,
    ;
}

/// To project a second time changes next to nothing: what the first
/// projection left along the normal is rounding, and taking it off moves no
/// component by more than one step.
pub proof fn lemma_projection_twice(v: SpecVec3, n: SpecVec3)
    requires
        dot(n, n) > 0,
    ensures
        within(minus_projection(projection(v, n), n), 1),
{
    let p = projection(v, n);
    let e = dot(p, n);
    let nn = dot(n, n);
    let s = abs(n.x) + abs(n.y) + abs(n.z);
    lemma_projection_in_plane(v, n);
    let a = abs(n.x);
    let b = abs(n.y);
    let c = abs(n.z);
    assert(a * a == n.x * n.x && b * b == n.y * n.y && c * c == n.z * n.z) by (nonlinear_arith)
        requires
            a == abs(n.x),
            b == abs(n.y),
            c == abs(n.z),
    ;
    assert(s * s <= 3 * nn) by (nonlinear_arith)
        requires
            s == a + b + c,
            nn == a * a + b * b + c * c,
    ;
    assert(e * e <= 3 * nn) by (nonlinear_arith)
        requires
            abs(e) < s,
            s * s <= 3 * nn,
            s >= 0,
    ;
    lemma_twice_part(n.x, e, nn, a);
    lemma_twice_part(n.y, e, nn, b);
    lemma_twice_part(n.z, e, nn, c);
}

/// What a second projection takes off one component.
proof fn lemma_twice_part(ni: int, e: int, nn: int, a: int)
    requires
        nn > 0,
        a == abs(ni),
        a * a <= nn,
        e * e <= 3 * nn,
    ensures
        abs(trunc_div(ni * e, nn)) <= 1,
{
    let x = ni * e;
    assert(x * x == (ni * ni) * (e * e)) by (nonlinear_arith)
        requires
            x == ni * e,
    ;
    assert(ni * ni == a * a) by (nonlinear_arith)
        requires
            a == abs(ni),
    ;
    assert(0 <= e * e && 0 <= ni * ni) by (nonlinear_arith);
    assert(x * x <= nn * (3 * nn)) by (nonlinear_arith)
        requires
            x * x == (ni * ni) * (e * e),
            0 <= ni * ni <= nn,
            0 <= e * e <= 3 * nn,
    ;
    assert(abs(x) < 2 * nn) by (nonlinear_arith)
        requires
            x * x <= nn * (3 * nn),
            nn > 0,
    ;
    assert(abs(trunc_div(x, nn)) <= 1) by (nonlinear_arith)
        requires
            abs(x) < 2 * nn,
            nn > 0,
            trunc_div(x, nn) == (if x >= 0 {
                x / nn
            } else {
                -((-x) / nn)
            }),
    ;
}

/// The magnitude of a product is at most that of one factor times a bound
/// on the other.
proof fn lemma_product_bound(a: int, r: int, m: int)
    requires
        abs(r) <= m,
    ensures
        abs(a * r) <= abs(a) * m,
{
    assert(abs(a * r) <= abs(a) * m) by (nonlinear_arith)
        requires
            abs(r) <= m,
    ;
}

/// A difference of two products, times `m`, changes its sign when the
/// factors of each product change places and the products do too.
proof fn lemma_swapped_difference(p: int, q: int, r: int, t: int, m: int)
    ensures
        (p * q - r * t) * m == -((t * r - q * p) * m),
{
    assert((p * q - r * t) * m == -((t * r - q * p) * m)) by (nonlinear_arith);
}

/// The sine term changes its sign, and the cosine term stays, when the two
/// vectors change places: so the angle from `b` to `a` is the angle from `a`
/// to `b` turned the other way.
pub proof fn lemma_angle_to_antisymmetric(a: SpecVec3, b: SpecVec3, n: SpecVec3)
    ensures
        sine_term(a, b, n) == -sine_term(b, a, n),
        cosine_term(a, b) == cosine_term(b, a),
{
    lemma_swapped_difference(a.y, b.z, a.z, b.y, n.x);
    lemma_swapped_difference(a.z, b.x, a.x, b.z, n.y);
    lemma_swapped_difference(a.x, b.y, a.y, b.x, n.z);
    assert(dot(cross(a, b), n) == -dot(cross(b, a), n));
    assert(cosine_term(a, b) == cosine_term(b, a)) by (nonlinear_arith)
        requires
            cosine_term(a, b) == a.x * b.x + a.y * b.y + a.z * b.z,
            cosine_term(b, a) == b.x * a.x + b.y * a.y + b.z * a.z,
    ;
}

/// The inner product of two vectors.
fn dot_wide(a: &Vec3, b: &Vec3) -> (d: i128)
    requires
        within(a@, WIDE_MAX as int),
        within(b@, WIDE_MAX as int),
    ensures
        d == dot(a@, b@),
{
    proof {
        lemma_dot_bound(a@, b@, WIDE_MAX as int, WIDE_MAX as int);
        assert(abs(a.x * b.x) <= WIDE_MAX * WIDE_MAX && abs(a.y * b.y) <= WIDE_MAX * WIDE_MAX
            && abs(a.z * b.z) <= WIDE_MAX * WIDE_MAX) by (nonlinear_arith)
            requires
                within(a@, WIDE_MAX as int),
                within(b@, WIDE_MAX as int),
        ;
    }
    (a.x as i128) * (b.x as i128) + (a.y as i128) * (b.y as i128) + (a.z as i128) * (b.z as i128)
}

/// Takes from `vector` its component along `plane_normal`, which need not
/// have unit length. Each component of the part taken off is rounded toward
/// zero.
///
/// The normal must not be the zero vector. What comes out stays within three
/// times any bound that holds of what went in, so a vector within
/// [`COORD_MAX`] can be projected and the result projected again.
pub fn project_onto_plane(vector: &Vec3, plane_normal: &Vec3) -> (projected: Vec3)
    requires
        within(vector@, WIDE_MAX as int),
        within(plane_normal@, DIRECTION_MAX as int),
        dot(plane_normal@, plane_normal@) > 0,
    ensures
        projected@ == projection(vector@, plane_normal@),
        forall|bound: int|
            bound >= 1 && #[trigger] within(vector@, bound) ==> within(projected@, 3 * bound),
{
    proof {
        assert(DIRECTION_MAX <= WIDE_MAX);
    }
    let normsq = dot_wide(plane_normal, plane_normal);
    let dot = dot_wide(vector, plane_normal);
    proof {
        lemma_dot_bound(vector@, plane_normal@, WIDE_MAX as int, DIRECTION_MAX as int);
        lemma_projection_part(vector@, plane_normal@, plane_normal.x as int, WIDE_MAX as int);
        lemma_projection_part(vector@, plane_normal@, plane_normal.y as int, WIDE_MAX as int);
        lemma_projection_part(vector@, plane_normal@, plane_normal.z as int, WIDE_MAX as int);
        lemma_product_bound(plane_normal.x as int, dot as int, 3 * (WIDE_MAX * DIRECTION_MAX));
        lemma_product_bound(plane_normal.y as int, dot as int, 3 * (WIDE_MAX * DIRECTION_MAX));
        lemma_product_bound(plane_normal.z as int, dot as int, 3 * (WIDE_MAX * DIRECTION_MAX));
        assert(abs(plane_normal.x as int) * (3 * (WIDE_MAX * DIRECTION_MAX)) <= DIRECTION_MAX * (3
            * (WIDE_MAX * DIRECTION_MAX)) && abs(plane_normal.y as int) * (3 * (WIDE_MAX
            * DIRECTION_MAX)) <= DIRECTION_MAX * (3 * (WIDE_MAX * DIRECTION_MAX)) && abs(
            plane_normal.z as int,
        ) * (3 * (WIDE_MAX * DIRECTION_MAX)) <= DIRECTION_MAX * (3 * (WIDE_MAX * DIRECTION_MAX)))
            by (nonlinear_arith)
            requires
                within(plane_normal@, DIRECTION_MAX as int),
        ;
        assert(DIRECTION_MAX * (3 * (WIDE_MAX * DIRECTION_MAX))
            == 0x90_0000_0000_0000_0000_0000_0000) by (nonlinear_arith);
        assert forall|bound: int| bound >= 1 && #[trigger] within(vector@, bound) implies within(
            projection(vector@, plane_normal@),
            3 * bound,
        ) by {
            lemma_projection_part(vector@, plane_normal@, plane_normal.x as int, bound);
            lemma_projection_part(vector@, plane_normal@, plane_normal.y as int, bound);
            lemma_projection_part(vector@, plane_normal@, plane_normal.z as int, bound);
        }
    }
    let off_x = div_toward_zero((plane_normal.x as i128) * dot, normsq);
    let off_y = div_toward_zero((plane_normal.y as i128) * dot, normsq);
    let off_z = div_toward_zero((plane_normal.z as i128) * dot, normsq);
    Vec3 {
        x: ((vector.x as i128) - off_x) as i64,
        y: ((vector.y as i128) - off_y) as i64,
        z: ((vector.z as i128) - off_z) as i64,
    }
}

/// The terms of the signed angle from `a` to `b` about the axis `n`, for two
/// vectors in the plane of which `n` is the normal. `n` is meant to have the
/// length [`UNIT`]. The angle is the `atan2` of the sine term and the cosine
/// term; it is positive where the turn from `a` to `b` is right-handed about
/// `n`.
pub fn angle_to(a: &Vec3, b: &Vec3, n: &Vec3) -> (terms: AngleTerms)
    requires
        within(a@, WIDE_MAX as int),
        within(b@, WIDE_MAX as int),
        within(n@, DIRECTION_MAX as int),
    ensures
        terms.sine == sine_term(a@, b@, n@),
        terms.cosine == cosine_term(a@, b@),
{
    let cosine = dot_wide(a, b);
    proof {
        assert(abs(a.y * b.z) <= WIDE_MAX * WIDE_MAX && abs(a.z * b.y) <= WIDE_MAX * WIDE_MAX
            && abs(a.z * b.x) <= WIDE_MAX * WIDE_MAX && abs(a.x * b.z) <= WIDE_MAX * WIDE_MAX
            && abs(a.x * b.y) <= WIDE_MAX * WIDE_MAX && abs(a.y * b.x) <= WIDE_MAX * WIDE_MAX)
            by (nonlinear_arith)
            requires
                within(a@, WIDE_MAX as int),
                within(b@, WIDE_MAX as int),
        ;
    }
    let cx = (a.y as i128) * (b.z as i128) - (a.z as i128) * (b.y as i128);
    let cy = (a.z as i128) * (b.x as i128) - (a.x as i128) * (b.z as i128);
    let cz = (a.x as i128) * (b.y as i128) - (a.y as i128) * (b.x as i128);
    proof {
        assert(abs(cx * n.x) <= 2 * (WIDE_MAX * WIDE_MAX) * DIRECTION_MAX && abs(cy * n.y) <= 2 * (
        WIDE_MAX * WIDE_MAX) * DIRECTION_MAX && abs(cz * n.z) <= 2 * (WIDE_MAX * WIDE_MAX)
            * DIRECTION_MAX) by (nonlinear_arith)
            requires
                abs(cx as int) <= 2 * (WIDE_MAX * WIDE_MAX),
                abs(cy as int) <= 2 * (WIDE_MAX * WIDE_MAX),
                abs(cz as int) <= 2 * (WIDE_MAX * WIDE_MAX),
                within(n@, DIRECTION_MAX as int),
        ;
    }
    let along = cx * (n.x as i128) + cy * (n.y as i128) + cz * (n.z as i128);
    AngleTerms { sine: div_toward_zero(along, UNIT as i128), cosine }
}

/// A quaternion of four mathematical integers: the model of [`Quat`].
pub struct SpecQuat {
    pub x: int,
    pub y: int,
    pub z: int,
    pub w: int,
}

impl View for Quat {
    type V = SpecQuat;

    open spec fn view(&self) -> SpecQuat {
        SpecQuat { x: self.x as int, y: self.y as int, z: self.z as int, w: self.w as int }
    }
}

/// Three vectors as the rows of a matrix.
#[derive(Clone, Copy, Debug, PartialEq, Eq, Structural)]
pub struct Mat3 {
    pub row0: Vec3,
    pub row1: Vec3,
    pub row2: Vec3,
}

/// `r` is the square root of `n`, rounded down.
pub open spec fn is_floor_sqrt(n: int, r: int) -> bool {
    0 <= r && r * r <= n < (r + 1) * (r + 1)
}

/// The square root of `n`, rounded down.
pub open spec fn floor_sqrt(n: int) -> int {
    choose|r: int| is_floor_sqrt(n, r)
}

/// The factor by which a squared length `n` is scaled before its root is
/// taken: the root, rounded down, is then never below [`UNIT`], so that a
/// short vector loses no more in the rounding than a long one.
pub open spec fn root_scale(n: int) -> int {
    if n >= UNIT * UNIT {
        1
    } else {
        UNIT as int
    }
}

/// The root of the squared length `n`, in steps of one in [`root_scale`],
/// rounded down.
pub open spec fn scaled_root(n: int) -> int {
    floor_sqrt(n * (root_scale(n) * root_scale(n)))
}

/// The component `c` of a vector whose squared length is `n`, after the
/// vector is scaled to the length [`UNIT`]. The quotient is rounded toward
/// zero.
pub open spec fn unit_component(c: int, n: int) -> int {
    trunc_div(c * (UNIT * root_scale(n)), scaled_root(n))
}

/// `v` scaled to the length [`UNIT`].
pub open spec fn normalized(v: SpecVec3) -> SpecVec3 {
    SpecVec3 {
        x: unit_component(v.x, dot(v, v)),
        y: unit_component(v.y, dot(v, v)),
        z: unit_component(v.z, dot(v, v)),
    }
}

/// The square of the length of a quaternion.
pub open spec fn quat_norm_squared(q: SpecQuat) -> int {
    q.x * q.x + q.y * q.y + q.z * q.z + q.w * q.w
}

/// `q` scaled to the length [`UNIT`].
pub open spec fn normalized_quat(q: SpecQuat) -> SpecQuat {
    SpecQuat {
        x: unit_component(q.x, quat_norm_squared(q)),
        y: unit_component(q.y, quat_norm_squared(q)),
        z: unit_component(q.z, quat_norm_squared(q)),
        w: unit_component(q.w, quat_norm_squared(q)),
    }
}

/// The fourth power of [`UNIT`].
pub const UNIT_FOURTH: i128 = 1_000_000_000_000_000_000_000_000;

/// The factor by which the quaternion of an arc is scaled, so that the
/// product of the lengths of two short vectors is not lost in the rounding
/// of its root.
pub open spec fn arc_scale(a: SpecVec3, b: SpecVec3) -> int {
    if dot(a, a) * dot(b, b) >= UNIT_FOURTH {
        1
    } else {
        UNIT as int
    }
}

/// The quaternion of the shortest arc from `a` to `b`, before it is scaled
/// to unit length: its vector part is the vector product of the two, its
/// scalar part the product of their lengths plus their inner product, all
/// in steps of one in [`arc_scale`], the product of the lengths rounded down.
pub open spec fn arc_quaternion(a: SpecVec3, b: SpecVec3) -> SpecQuat {
    SpecQuat {
        x: arc_scale(a, b) * cross(a, b).x,
        y: arc_scale(a, b) * cross(a, b).y,
        z: arc_scale(a, b) * cross(a, b).z,
        w: floor_sqrt(dot(a, a) * dot(b, b) * (arc_scale(a, b) * arc_scale(a, b))) + arc_scale(
            a,
            b,
        ) * dot(a, b),
    }
}

/// Whether the first axis stands for "up" when axes are built on `fwd`: it
/// does where `fwd` is within about 26 degrees of the second axis, and where
/// `fwd` lies along the second axis, whichever way it points.
pub open spec fn uses_first_axis(fwd: SpecVec3) -> bool {
    10 * fwd.y > 9 * UNIT || (fwd.x == 0 && fwd.z == 0)
}

/// The direction that stands for "up" when axes are built on `fwd`: the
/// second axis, or the first where [`uses_first_axis`] says so.
pub open spec fn up_reference(fwd: SpecVec3) -> SpecVec3 {
    if uses_first_axis(fwd) {
        SpecVec3 { x: 1, y: 0, z: 0 }
    } else {
        SpecVec3 { x: 0, y: 1, z: 0 }
    }
}

/// The direction to the right of `fwd`, not scaled.
pub open spec fn right_of(fwd: SpecVec3) -> SpecVec3 {
    cross(up_reference(fwd), fwd)
}

/// The direction above `fwd`, not scaled.
pub open spec fn up_of(fwd: SpecVec3) -> SpecVec3 {
    cross(fwd, right_of(fwd))
}

/// A number has one square root rounded down.
proof fn lemma_floor_sqrt_is(n: int, r: int)
    requires
        is_floor_sqrt(n, r),
    ensures
        floor_sqrt(n) == r,
{
    let c = floor_sqrt(n);
    assert(is_floor_sqrt(n, c));
    assert(c == r) by (nonlinear_arith)
        requires
            0 <= r && r * r <= n < (r + 1) * (r + 1),
            0 <= c && c * c <= n < (c + 1) * (c + 1),
    ;
}

/// A number whose square is below the square of `bound + 1` is within
/// `bound`.
proof fn lemma_below_square(c: int, bound: int)
    requires
        bound >= 0,
        c * c < (bound + 1) * (bound + 1),
    ensures
        abs(c) <= bound,
{
    assert(abs(c) <= bound) by (nonlinear_arith)
        requires
            bound >= 0,
            c * c < (bound + 1) * (bound + 1),
    ;
}

/// The square root, rounded down, of a number up to the square of `bound`
/// is at most `bound`.
proof fn lemma_floor_sqrt_bound(n: int, r: int, bound: int)
    requires
        is_floor_sqrt(n, r),
        bound >= 0,
        n <= bound * bound,
    ensures
        r <= bound,
{
    assert(r <= bound) by (nonlinear_arith)
        requires
            0 <= r && r * r <= n,
            bound >= 0,
            n <= bound * bound,
    ;
}

/// The square root of `n`, rounded down.
fn isqrt(n: u128) -> (r: u64)
    ensures
        is_floor_sqrt(n as int, r as int),
        r == floor_sqrt(n as int),
{
    let mut lo: u128 = 0;
    let mut hi: u128 = 0x1_0000_0000_0000_0000;
    proof {
        assert(0x1_0000_0000_0000_0000int * 0x1_0000_0000_0000_0000int > u128::MAX)
            by (nonlinear_arith);
    }
    while hi - lo > 1
        invariant
            lo < hi <= 0x1_0000_0000_0000_0000,
            lo * lo <= n < hi * hi,
        decreases hi - lo,
    {
        let mid = lo + (hi - lo) / 2;
        proof {
            assert(mid * mid <= 0xffff_ffff_ffff_ffff * 0xffff_ffff_ffff_ffff)
                by (nonlinear_arith)
                requires
                    0 <= mid <= 0xffff_ffff_ffff_ffff,
            ;
            assert(0xffff_ffff_ffff_ffffint * 0xffff_ffff_ffff_ffffint <= u128::MAX)
                by (nonlinear_arith);
        }
        if mid * mid <= n {
            lo = mid;
        } else {
            hi = mid;
        }
    }
    proof {
        lemma_floor_sqrt_is(n as int, lo as int);
    }
    lo as u64
}

/// The magnitude of `c`.
fn magnitude(c: i128) -> (m: u128)
    requires
        c > i128::MIN,
    ensures
        m == abs(c as int),
{
    if c < 0 {
        (-c) as u128
    } else {
        c as u128
    }
}

/// The length of `v`, rounded down.
pub fn length(v: &Vec3) -> (len: i64)
    requires
        within(v@, COORD_MAX as int),
    ensures
        len == floor_sqrt(dot(v@, v@)),
        len >= 0,
{
    proof {
        lemma_dot_bound(v@, v@, COORD_MAX as int, COORD_MAX as int);
        assert(dot(v@, v@) >= 0) by (nonlinear_arith)
            requires
                dot(v@, v@) == v.x * v.x + v.y * v.y + v.z * v.z,
        ;
        assert(3 * (COORD_MAX * COORD_MAX) == 0x3_0000_0000_0000_0000_0000)
            by (nonlinear_arith);
        assert(COORD_MAX <= WIDE_MAX);
    }
    let squared = dot_wide(v, v);
    let len = isqrt(squared as u128);
    proof {
        assert(0x200_0000_0000int * 0x200_0000_0000int == 0x4_0000_0000_0000_0000_0000)
            by (nonlinear_arith);
        lemma_floor_sqrt_bound(squared as int, len as int, 0x200_0000_0000);
    }
    len as i64
}

/// The vector product of two vectors.
fn cross_wide(a: (i128, i128, i128), b: (i128, i128, i128)) -> (c: (i128, i128, i128))
    requires
        abs(a.0 as int) <= COORD_MAX && abs(a.1 as int) <= COORD_MAX && abs(a.2 as int)
            <= COORD_MAX,
        abs(b.0 as int) <= COORD_MAX && abs(b.1 as int) <= COORD_MAX && abs(b.2 as int)
            <= COORD_MAX,
    ensures
        (SpecVec3 { x: c.0 as int, y: c.1 as int, z: c.2 as int }) == cross(
            SpecVec3 { x: a.0 as int, y: a.1 as int, z: a.2 as int },
            SpecVec3 { x: b.0 as int, y: b.1 as int, z: b.2 as int },
        ),
        abs(c.0 as int) <= 2 * (COORD_MAX * COORD_MAX),
        abs(c.1 as int) <= 2 * (COORD_MAX * COORD_MAX),
        abs(c.2 as int) <= 2 * (COORD_MAX * COORD_MAX),
        abs(c.0 as int) <= abs(a.1 * b.2) + abs(a.2 * b.1),
        abs(c.1 as int) <= abs(a.2 * b.0) + abs(a.0 * b.2),
        abs(c.2 as int) <= abs(a.0 * b.1) + abs(a.1 * b.0),
{
    proof {
        assert(abs(a.1 * b.2) <= COORD_MAX * COORD_MAX && abs(a.2 * b.1) <= COORD_MAX * COORD_MAX
            && abs(a.2 * b.0) <= COORD_MAX * COORD_MAX && abs(a.0 * b.2) <= COORD_MAX * COORD_MAX
            && abs(a.0 * b.1) <= COORD_MAX * COORD_MAX && abs(a.1 * b.0) <= COORD_MAX * COORD_MAX)
            by (nonlinear_arith)
            requires
                abs(a.0 as int) <= COORD_MAX && abs(a.1 as int) <= COORD_MAX && abs(a.2 as int)
                    <= COORD_MAX,
                abs(b.0 as int) <= COORD_MAX && abs(b.1 as int) <= COORD_MAX && abs(b.2 as int)
                    <= COORD_MAX,
        ;
    }
    (a.1 * b.2 - a.2 * b.1, a.2 * b.0 - a.0 * b.2, a.0 * b.1 - a.1 * b.0)
}

/// The directions to the right of `fwd` and above it, written out.
proof fn lemma_axes_written_out(fwd: SpecVec3)
    ensures
        uses_first_axis(fwd) ==> right_of(fwd) == (SpecVec3 { x: 0, y: -fwd.z, z: fwd.y })
            && up_of(fwd) == (SpecVec3 {
            x: fwd.y * fwd.y + fwd.z * fwd.z,
            y: -(fwd.x * fwd.y),
            z: -(fwd.x * fwd.z),
        }),
        !uses_first_axis(fwd) ==> right_of(fwd) == (SpecVec3 { x: fwd.z, y: 0, z: -fwd.x })
            && up_of(fwd) == (SpecVec3 {
            x: -(fwd.x * fwd.y),
            y: fwd.x * fwd.x + fwd.z * fwd.z,
            z: -(fwd.y * fwd.z),
        }),
{
    let t = up_reference(fwd);
    let r = right_of(fwd);
    let u = up_of(fwd);
    if uses_first_axis(fwd) {
        assert(r.x == 0 && r.y == -fwd.z && r.z == fwd.y) by (nonlinear_arith)
            requires
                t.x == 1 && t.y == 0 && t.z == 0,
                r.x == t.y * fwd.z - t.z * fwd.y,
                r.y == t.z * fwd.x - t.x * fwd.z,
                r.z == t.x * fwd.y - t.y * fwd.x,
        ;
        assert(u.x == fwd.y * fwd.y + fwd.z * fwd.z && u.y == -(fwd.x * fwd.y) && u.z == -(fwd.x
            * fwd.z)) by (nonlinear_arith)
            requires
                r.x == 0 && r.y == -fwd.z && r.z == fwd.y,
                u.x == fwd.y * r.z - fwd.z * r.y,
                u.y == fwd.z * r.x - fwd.x * r.z,
                u.z == fwd.x * r.y - fwd.y * r.x,
        ;
    } else {
        assert(r.x == fwd.z && r.y == 0 && r.z == -fwd.x) by (nonlinear_arith)
            requires
                t.x == 0 && t.y == 1 && t.z == 0,
                r.x == t.y * fwd.z - t.z * fwd.y,
                r.y == t.z * fwd.x - t.x * fwd.z,
                r.z == t.x * fwd.y - t.y * fwd.x,
        ;
        assert(u.x == -(fwd.x * fwd.y) && u.y == fwd.x * fwd.x + fwd.z * fwd.z && u.z == -(fwd.y
            * fwd.z)) by (nonlinear_arith)
            requires
                r.x == fwd.z && r.y == 0 && r.z == -fwd.x,
                u.x == fwd.y * r.z - fwd.z * r.y,
                u.y == fwd.z * r.x - fwd.x * r.z,
                u.z == fwd.x * r.y - fwd.y * r.x,
        ;
    }
}

/// The vector product of two fixed-point vectors as a fixed-point vector:
/// each component of [`cross`] divided by [`UNIT`], rounded toward zero.
pub open spec fn scaled_cross(a: SpecVec3, b: SpecVec3) -> SpecVec3 {
    SpecVec3 {
        x: trunc_div(cross(a, b).x, UNIT as int),
        y: trunc_div(cross(a, b).y, UNIT as int),
        z: trunc_div(cross(a, b).z, UNIT as int),
    }
}

/// The vector product of `a` and `b`, right-handed, in the units of `a` where
/// `b` has the length [`UNIT`].
pub fn cross_product(a: &Vec3, b: &Vec3) -> (c: Vec3)
    requires
        within(a@, COORD_MAX as int),
        within(b@, COORD_MAX as int),
    ensures
        c@ == scaled_cross(a@, b@),
{
    let wide = cross_wide(
        (a.x as i128, a.y as i128, a.z as i128),
        (b.x as i128, b.y as i128, b.z as i128),
    );
    proof {
        lemma_trunc_div_rest(wide.0 as int, UNIT as int);
        lemma_trunc_div_rest(wide.1 as int, UNIT as int);
        lemma_trunc_div_rest(wide.2 as int, UNIT as int);
        assert(2 * (COORD_MAX * COORD_MAX) == 0x2_0000_0000_0000_0000_0000)
            by (nonlinear_arith);
    }
    Vec3 {
        x: div_toward_zero(wide.0, UNIT as i128) as i64,
        y: div_toward_zero(wide.1, UNIT as i128) as i64,
        z: div_toward_zero(wide.2, UNIT as i128) as i64,
    }
}

/// The axes built on `fwd` are at right angles to each other, and they are
/// right-handed: the vector product of the one to the right and the one above
/// points along `fwd`. This is said of the directions before they are scaled.
pub proof fn lemma_axes_orthogonal(fwd: SpecVec3)
    ensures
        dot(right_of(fwd), fwd) == 0,
        dot(up_of(fwd), fwd) == 0,
        dot(up_of(fwd), right_of(fwd)) == 0,
        cross(right_of(fwd), up_of(fwd)).x == dot(right_of(fwd), right_of(fwd)) * fwd.x,
        cross(right_of(fwd), up_of(fwd)).y == dot(right_of(fwd), right_of(fwd)) * fwd.y,
        cross(right_of(fwd), up_of(fwd)).z == dot(right_of(fwd), right_of(fwd)) * fwd.z,
{
    let r = right_of(fwd);
    let u = up_of(fwd);
    lemma_axes_written_out(fwd);
    if uses_first_axis(fwd) {
        assert(dot(r, fwd) == 0 && dot(u, fwd) == 0 && dot(u, r) == 0) by (nonlinear_arith)
            requires
                r.x == 0 && r.y == -fwd.z && r.z == fwd.y,
                u.x == fwd.y * fwd.y + fwd.z * fwd.z && u.y == -(fwd.x * fwd.y) && u.z == -(fwd.x
                    * fwd.z),
        ;
        assert(cross(r, u).x == dot(r, r) * fwd.x && cross(r, u).y == dot(r, r) * fwd.y && cross(
            r,
            u,
        ).z == dot(r, r) * fwd.z) by (nonlinear_arith)
            requires
                r.x == 0 && r.y == -fwd.z && r.z == fwd.y,
                u.x == fwd.y * fwd.y + fwd.z * fwd.z && u.y == -(fwd.x * fwd.y) && u.z == -(fwd.x
                    * fwd.z),
        ;
    } else {
        assert(dot(r, fwd) == 0 && dot(u, fwd) == 0 && dot(u, r) == 0) by (nonlinear_arith)
            requires
                r.x == fwd.z && r.y == 0 && r.z == -fwd.x,
                u.x == -(fwd.x * fwd.y) && u.y == fwd.x * fwd.x + fwd.z * fwd.z && u.z == -(fwd.y
                    * fwd.z),
        ;
        assert(cross(r, u).x == dot(r, r) * fwd.x && cross(r, u).y == dot(r, r) * fwd.y && cross(
            r,
            u,
        ).z == dot(r, r) * fwd.z) by (nonlinear_arith)
            requires
                r.x == fwd.z && r.y == 0 && r.z == -fwd.x,
                u.x == -(fwd.x * fwd.y) && u.y == fwd.x * fwd.x + fwd.z * fwd.z && u.z == -(fwd.y
                    * fwd.z),
        ;
    }
}

/// The right, up and forward axes of a rotation that looks along `fwd`, in
/// this order. `fwd` is handed back as it came; the other two are scaled to
/// the length [`UNIT`], the three are at right angles to each other up to
/// rounding, and they are right-handed.
///
/// `fwd` is meant to have the length [`UNIT`]; it must not be the zero
/// vector.
pub fn get_rot_axes_from_forward(fwd: &Vec3) -> (axes: (Vec3, Vec3, Vec3))
    requires
        within(fwd@, DIRECTION_MAX as int),
        dot(fwd@, fwd@) > 0,
    ensures
        axes.0@ == normalized(right_of(fwd@)),
        axes.1@ == normalized(up_of(fwd@)),
        axes.2 == *fwd,
        UNIT * UNIT - 9 * UNIT <= dot(axes.0@, axes.0@) <= UNIT * UNIT + 2 * UNIT,
        UNIT * UNIT - 9 * UNIT <= dot(axes.1@, axes.1@) <= UNIT * UNIT + 2 * UNIT,
        10 * fwd.y > 9 * UNIT ==> axes.0.x == 0 && axes.1.x >= 0,
        10 * fwd.y <= 9 * UNIT ==> axes.0.y == 0 && axes.1.y >= 0,
        abs(dot(axes.0@, axes.1@)) <= 9 * UNIT,
        abs(dot(axes.0@, fwd@)) <= abs(fwd.x as int) + abs(fwd.y as int) + abs(fwd.z as int),
        abs(dot(axes.1@, fwd@)) <= abs(fwd.x as int) + abs(fwd.y as int) + abs(fwd.z as int),
        dot(cross(axes.0@, axes.1@), fwd@) >= 0,
{
    let first = 10 * (fwd.y as i128) > 9 * (UNIT as i128) || (fwd.x == 0 && fwd.z == 0);
    let temp_up: (i128, i128, i128) = if first {
        (1, 0, 0)
    } else {
        (0, 1, 0)
    };
    let forward = (fwd.x as i128, fwd.y as i128, fwd.z as i128);
    proof {
        assert(DIRECTION_MAX <= COORD_MAX);
    }
    let right = cross_wide(temp_up, forward);
    proof {
        lemma_axes_written_out(fwd@);
        assert(right.0 == right_of(fwd@).x && right.1 == right_of(fwd@).y && right.2 == right_of(
            fwd@,
        ).z);
        assert(fwd.x != 0 || fwd.y != 0 || fwd.z != 0) by (nonlinear_arith)
            requires
                fwd.x * fwd.x + fwd.y * fwd.y + fwd.z * fwd.z > 0,
        ;
        assert(right.0 * right.0 + right.1 * right.1 + right.2 * right.2 > 0) by (nonlinear_arith)
            requires
                (right.0 == 0 && right.1 == -fwd.z && right.2 == fwd.y && (fwd.y != 0 || fwd.z
                    != 0)) || (right.0 == fwd.z && right.1 == 0 && right.2 == -fwd.x && (fwd.x
                    != 0 || fwd.z != 0)),
        ;
    }
    let up = cross_wide(forward, right);
    proof {
        let u = up_of(fwd@);
        assert(up.0 == u.x && up.1 == u.y && up.2 == u.z);
        assert(u.x * u.x + u.y * u.y + u.z * u.z > 0 && (first ==> u.x >= 0) && (!first ==> u.y
            >= 0)) by (nonlinear_arith)
            requires
                (first && u.x == fwd.y * fwd.y + fwd.z * fwd.z && (fwd.y != 0 || fwd.z != 0)) || (
                !first && u.y == fwd.x * fwd.x + fwd.z * fwd.z && (fwd.x != 0 || fwd.z != 0)),
        ;
        lemma_products_bound(forward.1 as int, right.2 as int, forward.2 as int, right.1 as int, DIRECTION_MAX as int);
        lemma_products_bound(forward.2 as int, right.0 as int, forward.0 as int, right.2 as int, DIRECTION_MAX as int);
        lemma_products_bound(forward.0 as int, right.1 as int, forward.1 as int, right.0 as int, DIRECTION_MAX as int);
        assert(2 * (DIRECTION_MAX * DIRECTION_MAX) <= QUAT_MAX) by (nonlinear_arith);
    }
    let right_axis = normalize_wide(right.0, right.1, right.2);
    let up_axis = normalize_wide(up.0, up.1, up.2);
    proof {
        let r = right_of(fwd@);
        let u = up_of(fwd@);
        lemma_unit_component_sign(u.x, dot(u, u));
        lemma_unit_component_sign(u.y, dot(u, u));
        lemma_unit_component_sign(r.x, dot(r, r));
        lemma_unit_component_sign(r.y, dot(r, r));
        lemma_axes_orthogonal(fwd@);
        assert(dot(r, u) == 0) by (nonlinear_arith)
            requires
                dot(u, r) == 0,
                dot(u, r) == u.x * r.x + u.y * r.y + u.z * r.z,
                dot(r, u) == r.x * u.x + r.y * u.y + r.z * u.z,
        ;
        lemma_scaled_stays_orthogonal(r, fwd@);
        lemma_scaled_stays_orthogonal(u, fwd@);
        lemma_scaled_pair_orthogonal(r, u);
        lemma_axes_right_handed(fwd@);
    }
    (right_axis, up_axis, *fwd)
}

/// The matrix whose rows are `right`, `up` and `fwd`. Nothing is done to make
/// the three orthonormal.
pub fn rot_mat_from_right_up_fwd(right: &Vec3, up: &Vec3, fwd: &Vec3) -> (m: Mat3)
    ensures
        m.row0 == *right,
        m.row1 == *up,
        m.row2 == *fwd,
{
    Mat3 { row0: *right, row1: *up, row2: *fwd }
}

/// Largest magnitude of a component that can be scaled to unit length.
pub const QUAT_MAX: i128 = 0x6000_0000_0000_0000;

/// The square of a quotient rounded toward zero, against the square of what
/// was divided.
proof fn lemma_quotient_square(p: int, l: int)
    requires
        l > 0,
    ensures
        (l * l) * (trunc_div(p, l) * trunc_div(p, l)) <= p * p,
        (l * l) * (trunc_div(p, l) * trunc_div(p, l)) >= p * p - 2 * l * abs(p),
{
    let q = trunc_div(p, l);
    let m = abs(q) * l;
    assert(0 <= m <= abs(p) && abs(p) - m < l) by (nonlinear_arith)
        requires
            l > 0,
            m == abs(q) * l,
            q == (if p >= 0 {
                p / l
            } else {
                -((-p) / l)
            }),
    ;
    assert(m * m == (l * l) * (q * q)) by (nonlinear_arith)
        requires
            m == abs(q) * l,
    ;
    assert(m * m <= p * p && m * m >= p * p - 2 * l * abs(p)) by (nonlinear_arith)
        requires
            0 <= m <= abs(p),
            abs(p) - m < l,
            l > 0,
    ;
}

/// The square of `c * (u * k)` with the factors sorted.
proof fn lemma_scaled_square(c: int, u: int, k: int)
    ensures
        (c * (u * k)) * (c * (u * k)) == (u * u) * ((c * c) * (k * k)),
{
    assert((c * (u * k)) * (c * (u * k)) == (u * u) * ((c * c) * (k * k))) by (nonlinear_arith);
}

/// A component whose square is at most `u * u * m`, where the root of `m`
/// rounded down is `l`, is below `u * (l + 1)`, and its quotient by `l` is
/// at most `2 * u`.
proof fn lemma_component_bound(p: int, u: int, l: int, m: int)
    requires
        u >= 1,
        l >= 1,
        m < (l + 1) * (l + 1),
        p * p <= (u * u) * m,
    ensures
        abs(p) <= u * (l + 1),
        abs(trunc_div(p, l)) <= 2 * u,
{
    let b = u * (l + 1);
    assert((u * u) * ((l + 1) * (l + 1)) == b * b) by (nonlinear_arith)
        requires
            b == u * (l + 1),
    ;
    assert((u * u) * m <= (u * u) * ((l + 1) * (l + 1))) by (nonlinear_arith)
        requires
            m < (l + 1) * (l + 1),
    ;
    assert(abs(p) <= b) by (nonlinear_arith)
        requires
            p * p <= b * b,
            b >= 0,
    ;
    assert(abs(trunc_div(p, l)) <= 2 * u) by (nonlinear_arith)
        requires
            abs(p) <= u * (l + 1),
            u >= 1,
            l >= 1,
            trunc_div(p, l) == (if p >= 0 {
                p / l
            } else {
                -((-p) / l)
            }),
    ;
}

/// The squared length `s` of a vector that was scaled to the length `u` is
/// near `u * u`, given how the squares of its components stand to the
/// squares of the components before the division.
proof fn lemma_unit_square(u: int, l: int, m: int, s: int, sum_abs: int)
    requires
        u >= 1,
        l >= u,
        l >= 8,
        l * l <= m < (l + 1) * (l + 1),
        s >= 0,
        (l * l) * s <= (u * u) * m,
        (l * l) * s >= (u * u) * m - 2 * l * sum_abs,
        0 <= sum_abs <= 4 * (u * (l + 1)),
    ensures
        u * u - 9 * u <= s <= u * u + 2 * u,
{
    let x = l * u;
    let a = x + l;
    let b = x + u;
    assert(a * a >= b * b) by (nonlinear_arith)
        requires
            0 <= b <= a,
    ;
    assert((l * l) * ((u + 1) * (u + 1)) == a * a) by (nonlinear_arith)
        requires
            a == l * u + l,
    ;
    assert((u * u) * ((l + 1) * (l + 1)) == b * b) by (nonlinear_arith)
        requires
            b == l * u + u,
    ;
    assert((u * u) * m < (u * u) * ((l + 1) * (l + 1))) by (nonlinear_arith)
        requires
            m < (l + 1) * (l + 1),
            u >= 1,
    ;
    if s >= (u + 1) * (u + 1) {
        assert((l * l) * s >= (l * l) * ((u + 1) * (u + 1))) by (nonlinear_arith)
            requires
                s >= (u + 1) * (u + 1),
        ;
        assert(false);
    }
    assert((u + 1) * (u + 1) == u * u + 2 * u + 1) by (nonlinear_arith);
    let t = (u * u) * (l * l);
    let ul2 = u * (l * l);
    let ull = u * l;
    assert((u * u) * m >= t) by (nonlinear_arith)
        requires
            m >= l * l,
            t == (u * u) * (l * l),
    ;
    assert(2 * l * sum_abs <= 8 * ul2 + 8 * ull) by (nonlinear_arith)
        requires
            0 <= sum_abs <= 4 * (u * (l + 1)),
            l >= 1,
            ul2 == u * (l * l),
            ull == u * l,
    ;
    assert(8 * ull <= ul2) by (nonlinear_arith)
        requires
            l >= 8,
            u >= 1,
            ul2 == u * (l * l),
            ull == u * l,
    ;
    assert((l * l) * (u * u - 9 * u) == t - 9 * ul2) by (nonlinear_arith)
        requires
            t == (u * u) * (l * l),
            ul2 == u * (l * l),
    ;
    if s < u * u - 9 * u {
        assert((l * l) * s < (l * l) * (u * u - 9 * u)) by (nonlinear_arith)
            requires
                s < u * u - 9 * u,
                l >= 1,
        ;
        assert(false);
    }
}

/// The root of the squared length `n`, scaled and rounded down, is what its
/// name says, and it is not below [`UNIT`].
pub open spec fn rooted(n: int) -> bool {
    is_floor_sqrt(n * (root_scale(n) * root_scale(n)), scaled_root(n)) && scaled_root(n) >= UNIT
}

/// What scaling to unit length leaves over in each component of `c`, and how
/// large the components are before and after.
proof fn lemma_unit_parts(c: SpecVec3, i: int)
    requires
        rooted(dot(c, c)),
        i == c.x || i == c.y || i == c.z,
    ensures
        abs(i * (UNIT * root_scale(dot(c, c)))) <= UNIT * (scaled_root(dot(c, c)) + 1),
        abs(unit_component(i, dot(c, c))) <= 2 * UNIT,
        abs(i * (UNIT * root_scale(dot(c, c))) - unit_component(i, dot(c, c)) * scaled_root(
            dot(c, c),
        )) < scaled_root(dot(c, c)),
{
    let n = dot(c, c);
    let u = UNIT as int;
    let k = root_scale(n);
    let l = scaled_root(n);
    let m = n * (k * k);
    let p = i * (u * k);
    lemma_scaled_square(c.x, u, k);
    lemma_scaled_square(c.y, u, k);
    lemma_scaled_square(c.z, u, k);
    let kk = k * k;
    assert((u * u) * m == (u * u) * ((c.x * c.x) * kk) + (u * u) * ((c.y * c.y) * kk) + (u * u)
        * ((c.z * c.z) * kk)) by (nonlinear_arith)
        requires
            m == (c.x * c.x + c.y * c.y + c.z * c.z) * kk,
    ;
    let px = c.x * (u * k);
    let py = c.y * (u * k);
    let pz = c.z * (u * k);
    assert(px * px >= 0 && py * py >= 0 && pz * pz >= 0) by (nonlinear_arith);
    assert(p * p <= (u * u) * m);
    lemma_component_bound(p, u, l, m);
    lemma_trunc_div_rest(p, l);
}

/// The inner product of a vector scaled to unit length with another vector,
/// in terms of the inner product before the scaling and of what the scaling
/// left over.
proof fn lemma_scaled_against(c: SpecVec3, g: SpecVec3)
    requires
        rooted(dot(c, c)),
    ensures
        abs(scaled_root(dot(c, c)) * dot(normalized(c), g) - (UNIT * root_scale(dot(c, c))) * dot(
            c,
            g,
        )) <= (scaled_root(dot(c, c)) - 1) * (abs(g.x) + abs(g.y) + abs(g.z)),
{
    let n = dot(c, c);
    let f = UNIT * root_scale(n);
    let l = scaled_root(n);
    let q = normalized(c);
    lemma_unit_parts(c, c.x);
    lemma_unit_parts(c, c.y);
    lemma_unit_parts(c, c.z);
    let rx = c.x * f - q.x * l;
    let ry = c.y * f - q.y * l;
    let rz = c.z * f - q.z * l;
    lemma_against_share(c.x, f, q.x, l, g.x);
    lemma_against_share(c.y, f, q.y, l, g.y);
    lemma_against_share(c.z, f, q.z, l, g.z);
    lemma_spread(q.x * g.x, q.y * g.y, q.z * g.z, l);
    lemma_spread(c.x * g.x, c.y * g.y, c.z * g.z, f);
    assert(l * dot(q, g) == dot(q, g) * l) by (nonlinear_arith);
    assert(f * dot(c, g) == dot(c, g) * f) by (nonlinear_arith);
    assert(l * dot(q, g) - f * dot(c, g) == -(rx * g.x + ry * g.y + rz * g.z));
    lemma_product_bound(g.x, rx, l - 1);
    lemma_product_bound(g.y, ry, l - 1);
    lemma_product_bound(g.z, rz, l - 1);
    assert(rx * g.x == g.x * rx && ry * g.y == g.y * ry && rz * g.z == g.z * rz)
        by (nonlinear_arith);
    lemma_spread(abs(g.x), abs(g.y), abs(g.z), l - 1);
    assert((l - 1) * (abs(g.x) + abs(g.y) + abs(g.z)) == (abs(g.x) + abs(g.y) + abs(g.z)) * (l
        - 1)) by (nonlinear_arith);
}

/// One component's share of [`lemma_scaled_against`].
proof fn lemma_against_share(c: int, f: int, q: int, l: int, g: int)
    ensures
        (q * g) * l == (c * g) * f - (c * f - q * l) * g,
{
    assert((q * g) * l == (c * g) * f - (c * f - q * l) * g) by (nonlinear_arith);
}

/// The product of three numbers of which none or two are below zero is not
/// below zero.
proof fn lemma_sign3(a: int, b: int, c: int)
    requires
        (a >= 0 && b >= 0 && c >= 0) || (a <= 0 && b <= 0 && c >= 0) || (a <= 0 && b >= 0 && c
            <= 0) || (a >= 0 && b <= 0 && c <= 0),
    ensures
        (a * b) * c >= 0,
{
    assert((a * b) * c >= 0) by (nonlinear_arith)
        requires
            (a >= 0 && b >= 0 && c >= 0) || (a <= 0 && b <= 0 && c >= 0) || (a <= 0 && b >= 0
                && c <= 0) || (a >= 0 && b <= 0 && c <= 0),
    ;
}

/// The sign of a product of two numbers, from their signs.
proof fn lemma_sign2(a: int, b: int)
    ensures
        a >= 0 && b >= 0 ==> a * b >= 0,
        a <= 0 && b <= 0 ==> a * b >= 0,
        a >= 0 && b <= 0 ==> a * b <= 0,
        a <= 0 && b >= 0 ==> a * b <= 0,
{
    assert((a >= 0 && b >= 0 ==> a * b >= 0) && (a <= 0 && b <= 0 ==> a * b >= 0) && (a >= 0 && b
        <= 0 ==> a * b <= 0) && (a <= 0 && b >= 0 ==> a * b <= 0)) by (nonlinear_arith);
}

/// The axes built on `fwd` stay right-handed when they are scaled: the
/// vector product of the one to the right and the one above does not point
/// against `fwd`.
proof fn lemma_axes_right_handed(fwd: SpecVec3)
    requires
        rooted(dot(right_of(fwd), right_of(fwd))),
        rooted(dot(up_of(fwd), up_of(fwd))),
    ensures
        dot(cross(normalized(right_of(fwd)), normalized(up_of(fwd))), fwd) >= 0,
{
    let r = right_of(fwd);
    let u = up_of(fwd);
    let q = normalized(r);
    let t = normalized(u);
    lemma_axes_written_out(fwd);
    lemma_unit_component_sign(r.x, dot(r, r));
    lemma_unit_component_sign(r.y, dot(r, r));
    lemma_unit_component_sign(r.z, dot(r, r));
    lemma_unit_component_sign(u.x, dot(u, u));
    lemma_unit_component_sign(u.y, dot(u, u));
    lemma_unit_component_sign(u.z, dot(u, u));
    lemma_sign2(fwd.x, fwd.y);
    lemma_sign2(fwd.x, fwd.z);
    lemma_sign2(fwd.y, fwd.z);
    let whole = dot(cross(q, t), fwd);
    if uses_first_axis(fwd) {
        assert(u.x >= 0) by (nonlinear_arith)
            requires
                u.x == fwd.y * fwd.y + fwd.z * fwd.z,
        ;
        assert(whole == (q.y * t.z) * fwd.x + ((-q.z) * t.y) * fwd.x + (q.z * t.x) * fwd.y + ((
        -q.y) * t.x) * fwd.z) by (nonlinear_arith)
            requires
                q.x == 0,
                whole == (q.y * t.z - q.z * t.y) * fwd.x + (q.z * t.x - q.x * t.z) * fwd.y + (q.x
                    * t.y - q.y * t.x) * fwd.z,
        ;
        lemma_sign3(q.y, t.z, fwd.x);
        lemma_sign3(-q.z, t.y, fwd.x);
        lemma_sign3(q.z, t.x, fwd.y);
        lemma_sign3(-q.y, t.x, fwd.z);
    } else {
        assert(u.y >= 0) by (nonlinear_arith)
            requires
                u.y == fwd.x * fwd.x + fwd.z * fwd.z,
        ;
        assert(whole == ((-q.z) * t.y) * fwd.x + (q.z * t.x) * fwd.y + ((-q.x) * t.z) * fwd.y + (
        q.x * t.y) * fwd.z) by (nonlinear_arith)
            requires
                q.y == 0,
                whole == (q.y * t.z - q.z * t.y) * fwd.x + (q.z * t.x - q.x * t.z) * fwd.y + (q.x
                    * t.y - q.y * t.x) * fwd.z,
        ;
        lemma_sign3(-q.z, t.y, fwd.x);
        lemma_sign3(q.z, t.x, fwd.y);
        lemma_sign3(-q.x, t.z, fwd.y);
        lemma_sign3(q.x, t.y, fwd.z);
    }
}

/// A vector scaled to unit length stays at right angles, up to rounding, to
/// a vector to which it was at right angles before.
proof fn lemma_scaled_stays_orthogonal(c: SpecVec3, g: SpecVec3)
    requires
        rooted(dot(c, c)),
        dot(c, g) == 0,
    ensures
        abs(dot(normalized(c), g)) <= abs(g.x) + abs(g.y) + abs(g.z),
{
    lemma_scaled_against(c, g);
    let l = scaled_root(dot(c, c));
    let e = dot(normalized(c), g);
    let s = abs(g.x) + abs(g.y) + abs(g.z);
    assert((UNIT * root_scale(dot(c, c))) * dot(c, g) == 0) by (nonlinear_arith)
        requires
            dot(c, g) == 0,
    ;
    assert(abs(e) <= s) by (nonlinear_arith)
        requires
            abs(l * e) <= (l - 1) * s,
            l >= 1,
            s >= 0,
    ;
}

/// Two vectors that are at right angles stay so, up to rounding, when both
/// are scaled to unit length.
proof fn lemma_scaled_pair_orthogonal(c: SpecVec3, d: SpecVec3)
    requires
        rooted(dot(c, c)),
        rooted(dot(d, d)),
        dot(c, d) == 0,
    ensures
        abs(dot(normalized(c), normalized(d))) <= 9 * UNIT,
{
    let t = normalized(d);
    assert(dot(d, c) == 0) by (nonlinear_arith)
        requires
            dot(c, d) == 0,
            dot(c, d) == c.x * d.x + c.y * d.y + c.z * d.z,
            dot(d, c) == d.x * c.x + d.y * c.y + d.z * c.z,
    ;
    lemma_scaled_stays_orthogonal(d, c);
    assert(dot(c, t) == dot(t, c)) by (nonlinear_arith)
        requires
            dot(c, t) == c.x * t.x + c.y * t.y + c.z * t.z,
            dot(t, c) == t.x * c.x + t.y * c.y + t.z * c.z,
    ;
    lemma_scaled_against(c, t);
    lemma_unit_parts(c, c.x);
    lemma_unit_parts(c, c.y);
    lemma_unit_parts(c, c.z);
    lemma_unit_parts(d, d.x);
    lemma_unit_parts(d, d.y);
    lemma_unit_parts(d, d.z);
    let n = dot(c, c);
    let f = UNIT * root_scale(n);
    let l = scaled_root(n);
    let e = dot(normalized(c), t);
    let w = dot(c, t);
    let sc = abs(c.x) + abs(c.y) + abs(c.z);
    let st = abs(t.x) + abs(t.y) + abs(t.z);
    // What the first vector weighs before the division, component by component.
    assert(abs(c.x * f) == abs(c.x) * f && abs(c.y * f) == abs(c.y) * f && abs(c.z * f) == abs(
        c.z,
    ) * f) by (nonlinear_arith)
        requires
            f >= 1,
    ;
    lemma_spread(abs(c.x), abs(c.y), abs(c.z), f);
    assert(sc * f <= 3 * (UNIT * (l + 1)));
    assert(abs(f * w) <= sc * f) by (nonlinear_arith)
        requires
            abs(w) <= sc,
            f >= 1,
    ;
    assert(st <= 6 * UNIT);
    assert((l - 1) * st <= (l - 1) * (6 * UNIT)) by (nonlinear_arith)
        requires
            0 <= st <= 6 * UNIT,
            l >= 1,
    ;
    assert(abs(l * e) <= 9 * UNIT * l) by (nonlinear_arith)
        requires
            abs(l * e - f * w) <= (l - 1) * st,
            (l - 1) * st <= (l - 1) * (6 * UNIT),
            abs(f * w) <= 3 * (UNIT * (l + 1)),
            l >= 1,
    ;
    assert(abs(e) <= 9 * UNIT) by (nonlinear_arith)
        requires
            abs(l * e) <= 9 * UNIT * l,
            l >= 1,
    ;
}

/// A component that is zero stays zero, and one that is not negative stays
/// so, when the vector is scaled to unit length.
proof fn lemma_unit_component_sign(c: int, n: int)
    requires
        scaled_root(n) > 0,
    ensures
        c == 0 ==> unit_component(c, n) == 0,
        c >= 0 ==> unit_component(c, n) >= 0,
        c <= 0 ==> unit_component(c, n) <= 0,
{
    let f = UNIT * root_scale(n);
    assert(c == 0 ==> c * f == 0) by (nonlinear_arith);
    assert(c >= 0 ==> c * f >= 0) by (nonlinear_arith)
        requires
            f >= 1,
    ;
    assert(c <= 0 ==> c * f <= 0) by (nonlinear_arith)
        requires
            f >= 1,
    ;
    let l = scaled_root(n);
    assert(c * f <= 0 ==> (-(c * f)) / l >= 0) by (nonlinear_arith)
        requires
            l > 0,
    ;
    assert(c * f >= 0 ==> (c * f) / l >= 0) by (nonlinear_arith)
        requires
            l > 0,
    ;
    assert(c * f == 0 ==> (c * f) / l == 0) by (nonlinear_arith)
        requires
            l > 0,
    ;
}

/// The quaternion `(x, y, z, w)` scaled to the length [`UNIT`].
fn normalize_quat_wide(x: i128, y: i128, z: i128, w: i128) -> (unit: Quat)
    requires
        abs(x as int) <= QUAT_MAX,
        abs(y as int) <= QUAT_MAX,
        abs(z as int) <= QUAT_MAX,
        abs(w as int) <= QUAT_MAX,
        x * x + y * y + z * z + w * w > 0,
    ensures
        unit@ == normalized_quat(SpecQuat { x: x as int, y: y as int, z: z as int, w: w as int }),
        UNIT * UNIT - 9 * UNIT <= quat_norm_squared(unit@) <= UNIT * UNIT + 2 * UNIT,
        rooted(x * x + y * y + z * z + w * w),
{
    let mx = magnitude(x);
    let my = magnitude(y);
    let mz = magnitude(z);
    let mw = magnitude(w);
    proof {
        assert(mx * mx <= QUAT_MAX * QUAT_MAX && my * my <= QUAT_MAX * QUAT_MAX && mz * mz
            <= QUAT_MAX * QUAT_MAX && mw * mw <= QUAT_MAX * QUAT_MAX && mx * mx == x * x && my
            * my == y * y && mz * mz == z * z && mw * mw == w * w) by (nonlinear_arith)
            requires
                mx == abs(x as int) && mx <= QUAT_MAX,
                my == abs(y as int) && my <= QUAT_MAX,
                mz == abs(z as int) && mz <= QUAT_MAX,
                mw == abs(w as int) && mw <= QUAT_MAX,
        ;
        assert(QUAT_MAX * QUAT_MAX == 0x2400_0000_0000_0000_0000_0000_0000_0000)
            by (nonlinear_arith);
    }
    let sum = mx * mx + my * my + mz * mz + mw * mw;
    let ghost n = sum as int;
    let short = sum < 1_000_000_000_000;
    let scale: i128 = if short {
        UNIT as i128
    } else {
        1
    };
    proof {
        assert(UNIT * UNIT == 1_000_000_000_000) by (nonlinear_arith);
        assert(scale == root_scale(n));
        assert(x * x <= n && y * y <= n && z * z <= n && w * w <= n) by (nonlinear_arith)
            requires
                n == x * x + y * y + z * z + w * w,
        ;
        if short {
            lemma_below_square(x as int, UNIT - 1);
            lemma_below_square(y as int, UNIT - 1);
            lemma_below_square(z as int, UNIT - 1);
            lemma_below_square(w as int, UNIT - 1);
            assert(n * (scale * scale) < 1_000_000_000_000 * 1_000_000_000_000)
                by (nonlinear_arith)
                requires
                    0 <= n < 1_000_000_000_000,
                    scale == 1_000_000,
            ;
        } else {
            assert(n * (scale * scale) == n) by (nonlinear_arith)
                requires
                    scale == 1,
            ;
        }
        assert(scale * scale == (if short {
            1_000_000_000_000int
        } else {
            1int
        })) by (nonlinear_arith)
            requires
                scale == (if short {
                    1_000_000int
                } else {
                    1int
                }),
        ;
    }
    let scaled_sum: u128 = if short {
        sum * 1_000_000_000_000
    } else {
        sum
    };
    let len = isqrt(scaled_sum);
    let factor: i128 = (UNIT as i128) * scale;
    let ghost m = n * (scale * scale);
    let ghost l = len as int;
    proof {
        assert(scaled_sum == m);
        assert(l == scaled_root(n));
        assert(m >= UNIT * UNIT) by (nonlinear_arith)
            requires
                m == n * (scale * scale),
                (n >= 1 && scale * scale == 1_000_000_000_000) || (n >= 1_000_000_000_000 && scale
                    * scale == 1),
                UNIT * UNIT == 1_000_000_000_000,
        ;
        assert(l >= UNIT) by (nonlinear_arith)
            requires
                m >= UNIT * UNIT,
                m < (l + 1) * (l + 1),
                l >= 0,
        ;
        assert(abs(x * factor) <= QUAT_MAX * UNIT && abs(y * factor) <= QUAT_MAX * UNIT && abs(
            z * factor,
        ) <= QUAT_MAX * UNIT && abs(w * factor) <= QUAT_MAX * UNIT) by (nonlinear_arith)
            requires
                (factor == UNIT && abs(x as int) <= QUAT_MAX && abs(y as int) <= QUAT_MAX && abs(
                    z as int,
                ) <= QUAT_MAX && abs(w as int) <= QUAT_MAX) || (factor == UNIT * UNIT && abs(
                    x as int,
                ) <= UNIT && abs(y as int) <= UNIT && abs(z as int) <= UNIT && abs(w as int)
                    <= UNIT && UNIT * UNIT <= QUAT_MAX),
        ;
    }
    let px = x * factor;
    let py = y * factor;
    let pz = z * factor;
    let pw = w * factor;
    proof {
        let u = UNIT as int;
        let k = scale as int;
        lemma_scaled_square(x as int, u, k);
        lemma_scaled_square(y as int, u, k);
        lemma_scaled_square(z as int, u, k);
        lemma_scaled_square(w as int, u, k);
        let kk = k * k;
        assert((u * u) * m == (u * u) * ((x * x) * kk) + (u * u) * ((y * y) * kk) + (u * u) * ((z
            * z) * kk) + (u * u) * ((w * w) * kk)) by (nonlinear_arith)
            requires
                m == (x * x + y * y + z * z + w * w) * kk,
        ;
        assert(px * px >= 0 && py * py >= 0 && pz * pz >= 0 && pw * pw >= 0) by (nonlinear_arith);
        lemma_component_bound(px as int, u, l, m);
        lemma_component_bound(py as int, u, l, m);
        lemma_component_bound(pz as int, u, l, m);
        lemma_component_bound(pw as int, u, l, m);
        lemma_quotient_square(px as int, l);
        lemma_quotient_square(py as int, l);
        lemma_quotient_square(pz as int, l);
        lemma_quotient_square(pw as int, l);
        let qx = trunc_div(px as int, l);
        let qy = trunc_div(py as int, l);
        let qz = trunc_div(pz as int, l);
        let qw = trunc_div(pw as int, l);
        let s = qx * qx + qy * qy + qz * qz + qw * qw;
        assert(s >= 0 && (l * l) * s == (l * l) * (qx * qx) + (l * l) * (qy * qy) + (l * l) * (qz
            * qz) + (l * l) * (qw * qw)) by (nonlinear_arith)
            requires
                s == qx * qx + qy * qy + qz * qz + qw * qw,
        ;
        let sum_abs = abs(px as int) + abs(py as int) + abs(pz as int) + abs(pw as int);
        assert(2 * l * sum_abs == 2 * l * abs(px as int) + 2 * l * abs(py as int) + 2 * l * abs(
            pz as int,
        ) + 2 * l * abs(pw as int)) by (nonlinear_arith)
            requires
                sum_abs == abs(px as int) + abs(py as int) + abs(pz as int) + abs(pw as int),
        ;
        lemma_unit_square(u, l, m, s, sum_abs);
        assert(rooted(n));
    }
    Quat {
        x: div_toward_zero(px, len as i128) as i64,
        y: div_toward_zero(py, len as i128) as i64,
        z: div_toward_zero(pz, len as i128) as i64,
        w: div_toward_zero(pw, len as i128) as i64,
    }
}

/// The vector `(x, y, z)` scaled to the length [`UNIT`].
fn normalize_wide(x: i128, y: i128, z: i128) -> (unit: Vec3)
    requires
        abs(x as int) <= QUAT_MAX,
        abs(y as int) <= QUAT_MAX,
        abs(z as int) <= QUAT_MAX,
        x * x + y * y + z * z > 0,
    ensures
        unit@ == normalized(SpecVec3 { x: x as int, y: y as int, z: z as int }),
        UNIT * UNIT - 9 * UNIT <= dot(unit@, unit@) <= UNIT * UNIT + 2 * UNIT,
        rooted(x * x + y * y + z * z),
{
    let q = normalize_quat_wide(x, y, z, 0);
    proof {
        let n = x * x + y * y + z * z;
        assert(quat_norm_squared(SpecQuat { x: x as int, y: y as int, z: z as int, w: 0 }) == n);
        lemma_unit_component_sign(0, n);
        assert(q.w == 0);
        assert(quat_norm_squared(q@) == q.x * q.x + q.y * q.y + q.z * q.z) by (nonlinear_arith)
            requires
                q.w == 0,
                quat_norm_squared(q@) == q.x * q.x + q.y * q.y + q.z * q.z + q.w * q.w,
        ;
    }
    Vec3 { x: q.x, y: q.y, z: q.z }
}

/// `v` scaled to the length [`UNIT`]. `v` must not be the zero vector.
pub fn normalize(v: &Vec3) -> (unit: Vec3)
    requires
        within(v@, COORD_MAX as int),
        dot(v@, v@) > 0,
    ensures
        unit@ == normalized(v@),
        UNIT * UNIT - 9 * UNIT <= dot(unit@, unit@) <= UNIT * UNIT + 2 * UNIT,
{
    normalize_wide(v.x as i128, v.y as i128, v.z as i128)
}

/// The quaternion of the arc from `a` to `b` before it is scaled to unit
/// length, or `None` where it is zero.
fn arc(a: &Vec3, b: &Vec3) -> (raw: Option<(i128, i128, i128, i128)>)
    requires
        within(a@, DIRECTION_MAX as int),
        within(b@, DIRECTION_MAX as int),
    ensures
        raw is Some <==> quat_norm_squared(arc_quaternion(a@, b@)) > 0,
        raw matches Some(q) ==> (SpecQuat {
            x: q.0 as int,
            y: q.1 as int,
            z: q.2 as int,
            w: q.3 as int,
        }) == arc_quaternion(a@, b@) && abs(q.0 as int) <= QUAT_MAX && abs(q.1 as int) <= QUAT_MAX
            && abs(q.2 as int) <= QUAT_MAX && abs(q.3 as int) <= QUAT_MAX && q.3 >= 0,
        arc_scale(a@, b@) >= 1,
{
    proof {
        assert(DIRECTION_MAX <= WIDE_MAX && DIRECTION_MAX <= COORD_MAX);
    }
    let aa = dot_wide(a, a);
    let bb = dot_wide(b, b);
    let ab = dot_wide(a, b);
    let ghost bound = 3 * (DIRECTION_MAX * DIRECTION_MAX);
    proof {
        lemma_dot_bound(a@, a@, DIRECTION_MAX as int, DIRECTION_MAX as int);
        lemma_dot_bound(b@, b@, DIRECTION_MAX as int, DIRECTION_MAX as int);
        lemma_dot_bound(a@, b@, DIRECTION_MAX as int, DIRECTION_MAX as int);
        assert(bound == 0x3000_0000_0000_0000) by (nonlinear_arith)
            requires
                bound == 3 * (DIRECTION_MAX * DIRECTION_MAX),
        ;
        assert(aa >= 0 && bb >= 0) by (nonlinear_arith)
            requires
                aa == a.x * a.x + a.y * a.y + a.z * a.z,
                bb == b.x * b.x + b.y * b.y + b.z * b.z,
        ;
        assert(0 <= aa * bb <= bound * bound) by (nonlinear_arith)
            requires
                0 <= aa <= bound,
                0 <= bb <= bound,
        ;
        assert(bound * bound == 0x900_0000_0000_0000_0000_0000_0000_0000) by (nonlinear_arith)
            requires
                bound == 0x3000_0000_0000_0000,
        ;
    }
    let product = aa * bb;
    let short = product < UNIT_FOURTH;
    let scale: i128 = if short {
        UNIT as i128
    } else {
        1
    };
    let axis = cross_wide(
        (a.x as i128, a.y as i128, a.z as i128),
        (b.x as i128, b.y as i128, b.z as i128),
    );
    proof {
        assert(scale == arc_scale(a@, b@));
        lemma_dot_squared(a@, b@);
        lemma_cross_squared(a@, b@);
        if short {
            assert(product * (scale * scale) < 1_000_000_000_000_000_000_000_000
                * 1_000_000_000_000 && scale * scale == 1_000_000_000_000) by (nonlinear_arith)
                requires
                    0 <= product < 1_000_000_000_000_000_000_000_000,
                    scale == 1_000_000,
            ;
            let c = cross(a@, b@);
            assert(c.x * c.x <= product && c.y * c.y <= product && c.z * c.z <= product && ab * ab
                <= product) by (nonlinear_arith)
                requires
                    c.x * c.x + c.y * c.y + c.z * c.z + ab * ab == product,
            ;
            assert(1_000_000_000_000int * 1_000_000_000_000int
                == 1_000_000_000_000_000_000_000_000) by (nonlinear_arith);
            lemma_below_square(c.x, 1_000_000_000_000 - 1);
            lemma_below_square(c.y, 1_000_000_000_000 - 1);
            lemma_below_square(c.z, 1_000_000_000_000 - 1);
            lemma_below_square(ab as int, 1_000_000_000_000 - 1);
        } else {
            assert(product * (scale * scale) == product && scale * scale == 1) by (nonlinear_arith)
                requires
                    scale == 1,
            ;
            lemma_products_bound(a.y as int, b.z as int, a.z as int, b.y as int, DIRECTION_MAX as int);
            lemma_products_bound(a.z as int, b.x as int, a.x as int, b.z as int, DIRECTION_MAX as int);
            lemma_products_bound(a.x as int, b.y as int, a.y as int, b.x as int, DIRECTION_MAX as int);
            assert(2 * (DIRECTION_MAX * DIRECTION_MAX) == 0x2000_0000_0000_0000)
                by (nonlinear_arith);
        }
    }
    let scaled_product: u128 = if short {
        (product as u128) * 1_000_000_000_000
    } else {
        product as u128
    };
    let lengths = isqrt(scaled_product);
    proof {
        if short {
            lemma_floor_sqrt_bound(
                scaled_product as int,
                lengths as int,
                1_000_000_000_000_000_000,
            );
        } else {
            lemma_floor_sqrt_bound(scaled_product as int, lengths as int, bound);
        }
        assert(abs(scale * axis.0) <= 0x3000_0000_0000_0000 && abs(scale * axis.1)
            <= 0x3000_0000_0000_0000 && abs(scale * axis.2) <= 0x3000_0000_0000_0000 && abs(scale
            * ab) <= 0x3000_0000_0000_0000) by (nonlinear_arith)
            requires
                (scale == 1 && abs(axis.0 as int) <= 0x2000_0000_0000_0000 && abs(axis.1 as int)
                    <= 0x2000_0000_0000_0000 && abs(axis.2 as int) <= 0x2000_0000_0000_0000
                    && abs(ab as int) <= 0x3000_0000_0000_0000) || (scale == 1_000_000 && abs(
                    axis.0 as int,
                ) < 1_000_000_000_000 && abs(axis.1 as int) < 1_000_000_000_000 && abs(
                    axis.2 as int,
                ) < 1_000_000_000_000 && abs(ab as int) < 1_000_000_000_000),
        ;
    }
    let x = scale * axis.0;
    let y = scale * axis.1;
    let z = scale * axis.2;
    let w = (lengths as i128) + scale * ab;
    proof {
        let turned = scale * ab;
        assert(turned * turned <= product * (scale * scale)) by (nonlinear_arith)
            requires
                turned == scale * ab,
                ab * ab <= product,
                scale >= 1,
        ;
        lemma_below_square(turned as int, lengths as int);
    }
    proof {
        assert((x == 0 && y == 0 && z == 0 && w == 0) <==> x * x + y * y + z * z + w * w == 0)
            by (nonlinear_arith);
        assert(x * x + y * y + z * z + w * w >= 0) by (nonlinear_arith);
    }
    if x == 0 && y == 0 && z == 0 && w == 0 {
        None
    } else {
        Some((x, y, z, w))
    }
}

/// The rotation along the shortest arc that takes the direction of `a` to the
/// direction of `b`: the quaternion [`arc_quaternion`] scaled to the length
/// [`UNIT`].
///
/// Where `a` and `b` point in opposite directions, or one of them is the zero
/// vector, that quaternion is zero and there is no such rotation: the two
/// must not be so. [`checked_rotation_between_vectors`] tests this.
pub fn rotation_between_vectors(a: &Vec3, b: &Vec3) -> (q: Quat)
    requires
        within(a@, DIRECTION_MAX as int),
        within(b@, DIRECTION_MAX as int),
        quat_norm_squared(arc_quaternion(a@, b@)) > 0,
    ensures
        q@ == normalized_quat(arc_quaternion(a@, b@)),
        UNIT * UNIT - 9 * UNIT <= quat_norm_squared(q@) <= UNIT * UNIT + 2 * UNIT,
        turns_about(q@, cross(a@, b@)),
{
    match arc(a, b) {
        Some(raw) => {
            let q = normalize_quat_wide(raw.0, raw.1, raw.2, raw.3);
            proof {
                lemma_arc_turns_about(a@, b@);
            }
            q
        },
        None => vstd::pervasive::unreached(),
    }
}

/// The rotation along the shortest arc from `a` to `b`, as
/// [`rotation_between_vectors`] gives it, or `None` where there is none: a
/// vector is out of range, one of the two is the zero vector, or they point
/// in opposite directions.
pub fn checked_rotation_between_vectors(a: &Vec3, b: &Vec3) -> (q: Option<Quat>)
    ensures
        q is Some <==> within(a@, DIRECTION_MAX as int) && within(b@, DIRECTION_MAX as int)
            && quat_norm_squared(arc_quaternion(a@, b@)) > 0,
        q matches Some(found) ==> found@ == normalized_quat(arc_quaternion(a@, b@)) && UNIT * UNIT
            - 9 * UNIT <= quat_norm_squared(found@) <= UNIT * UNIT + 2 * UNIT && turns_about(
            found@,
            cross(a@, b@),
        ),
{
    if !in_range(a, DIRECTION_MAX) || !in_range(b, DIRECTION_MAX) {
        return None;
    }
    match arc(a, b) {
        Some(raw) => {
            let q = normalize_quat_wide(raw.0, raw.1, raw.2, raw.3);
            proof {
                lemma_arc_turns_about(a@, b@);
            }
            Some(q)
        },
        None => None,
    }
}

/// The rotation `q` turns about `axis`, the way `axis` points, by no more
/// than half a turn: its scalar part is not below zero, and no component of
/// its vector part points against the same component of `axis`.
pub open spec fn turns_about(q: SpecQuat, axis: SpecVec3) -> bool {
    &&& q.w >= 0
    &&& (axis.x >= 0 ==> q.x >= 0) && (axis.x <= 0 ==> q.x <= 0)
    &&& (axis.y >= 0 ==> q.y >= 0) && (axis.y <= 0 ==> q.y <= 0)
    &&& (axis.z >= 0 ==> q.z >= 0) && (axis.z <= 0 ==> q.z <= 0)
}

/// The quaternion of an arc, scaled to unit length, turns about the vector
/// product of the two vectors.
proof fn lemma_arc_turns_about(a: SpecVec3, b: SpecVec3)
    requires
        rooted(quat_norm_squared(arc_quaternion(a, b))),
        arc_quaternion(a, b).w >= 0,
        arc_scale(a, b) >= 1,
    ensures
        turns_about(normalized_quat(arc_quaternion(a, b)), cross(a, b)),
{
    let raw = arc_quaternion(a, b);
    let n = quat_norm_squared(raw);
    let k = arc_scale(a, b);
    let c = cross(a, b);
    lemma_unit_component_sign(raw.x, n);
    lemma_unit_component_sign(raw.y, n);
    lemma_unit_component_sign(raw.z, n);
    lemma_unit_component_sign(raw.w, n);
    lemma_sign2(k, c.x);
    lemma_sign2(k, c.y);
    lemma_sign2(k, c.z);
}

/// Whether every component of `v` has magnitude at most `bound`.
pub fn in_range(v: &Vec3, bound: i64) -> (inside: bool)
    requires
        bound >= 0,
    ensures
        inside == within(v@, bound as int),
{
    -bound <= v.x && v.x <= bound && -bound <= v.y && v.y <= bound && -bound <= v.z && v.z
        <= bound
}

/// Two products of numbers within `b` come to at most twice the square of
/// `b`.
proof fn lemma_products_bound(p: int, q: int, r: int, t: int, b: int)
    requires
        abs(p) <= b,
        abs(q) <= b,
        abs(r) <= b,
        abs(t) <= b,
    ensures
        abs(p * q) + abs(r * t) <= 2 * (b * b),
{
    assert(abs(p * q) <= b * b && abs(r * t) <= b * b) by (nonlinear_arith)
        requires
            abs(p) <= b,
            abs(q) <= b,
            abs(r) <= b,
            abs(t) <= b,
    ;
}

/// The squares of the vector product and of the inner product of two vectors
/// add up to the product of their squared lengths.
proof fn lemma_cross_squared(v: SpecVec3, n: SpecVec3)
    ensures
        cross(v, n).x * cross(v, n).x + cross(v, n).y * cross(v, n).y + cross(v, n).z * cross(
            v,
            n,
        ).z + dot(v, n) * dot(v, n) == dot(v, v) * dot(n, n),
{
    let a = v.x * n.x;
    let b = v.y * n.y;
    let c = v.z * n.z;
    let xy = v.x * n.y;
    let yx = v.y * n.x;
    let xz = v.x * n.z;
    let zx = v.z * n.x;
    let yz = v.y * n.z;
    let zy = v.z * n.y;
    let d = a + b + c;
    assert(d * d == a * a + b * b + c * c + 2 * (a * b) + 2 * (a * c) + 2 * (b * c))
        by (nonlinear_arith)
        requires
            d == a + b + c,
    ;
    lemma_swap_pairs(v.x, n.x, v.y, n.y);
    lemma_swap_pairs(v.x, n.x, v.z, n.z);
    lemma_swap_pairs(v.y, n.y, v.z, n.z);
    assert(a * b == xy * yx);
    assert(a * c == xz * zx);
    assert(b * c == yz * zy);
    assert((yz - zy) * (yz - zy) == yz * yz + zy * zy - 2 * (yz * zy)) by (nonlinear_arith);
    assert((zx - xz) * (zx - xz) == zx * zx + xz * xz - 2 * (xz * zx)) by (nonlinear_arith);
    assert((xy - yx) * (xy - yx) == xy * xy + yx * yx - 2 * (xy * yx)) by (nonlinear_arith);
    let v1 = v.x * v.x;
    let v2 = v.y * v.y;
    let v3 = v.z * v.z;
    let n1 = n.x * n.x;
    let n2 = n.y * n.y;
    let n3 = n.z * n.z;
    assert((v1 + v2 + v3) * (n1 + n2 + n3) == v1 * n1 + v1 * n2 + v1 * n3 + v2 * n1 + v2 * n2 + v2
        * n3 + v3 * n1 + v3 * n2 + v3 * n3) by (nonlinear_arith);
    lemma_swap_pairs(v.x, v.x, n.x, n.x);
    lemma_swap_pairs(v.x, v.x, n.y, n.y);
    lemma_swap_pairs(v.x, v.x, n.z, n.z);
    lemma_swap_pairs(v.y, v.y, n.x, n.x);
    lemma_swap_pairs(v.y, v.y, n.y, n.y);
    lemma_swap_pairs(v.y, v.y, n.z, n.z);
    lemma_swap_pairs(v.z, v.z, n.x, n.x);
    lemma_swap_pairs(v.z, v.z, n.y, n.y);
    lemma_swap_pairs(v.z, v.z, n.z, n.z);
    assert(v1 * n1 == a * a);
    assert(v1 * n2 == xy * xy);
    assert(v1 * n3 == xz * xz);
    assert(v2 * n1 == yx * yx);
    assert(v2 * n2 == b * b);
    assert(v2 * n3 == yz * yz);
    assert(v3 * n1 == zx * zx);
    assert(v3 * n2 == zy * zy);
    assert(v3 * n3 == c * c);
}

/// Where the rotation `q` takes the first axis.
pub open spec fn rotated_x(q: SpecQuat) -> SpecVec3 {
    SpecVec3 {
        x: UNIT - trunc_div(2 * (q.y * q.y + q.z * q.z), UNIT as int),
        y: trunc_div(2 * (q.x * q.y + q.w * q.z), UNIT as int),
        z: trunc_div(2 * (q.x * q.z - q.w * q.y), UNIT as int),
    }
}

/// Where the rotation `q` takes the second axis.
pub open spec fn rotated_y(q: SpecQuat) -> SpecVec3 {
    SpecVec3 {
        x: trunc_div(2 * (q.x * q.y - q.w * q.z), UNIT as int),
        y: UNIT - trunc_div(2 * (q.x * q.x + q.z * q.z), UNIT as int),
        z: trunc_div(2 * (q.y * q.z + q.w * q.x), UNIT as int),
    }
}

/// Where the rotation `q` takes the third axis.
pub open spec fn rotated_z(q: SpecQuat) -> SpecVec3 {
    SpecVec3 {
        x: trunc_div(2 * (q.x * q.z + q.w * q.y), UNIT as int),
        y: trunc_div(2 * (q.y * q.z - q.w * q.x), UNIT as int),
        z: UNIT - trunc_div(2 * (q.x * q.x + q.y * q.y), UNIT as int),
    }
}

/// Twice the sum, or the difference, of two products of components, in
/// units of [`UNIT`].
fn paired(a: i64, b: i64, c: i64, d: i64, plus: bool) -> (r: i64)
    requires
        abs(a as int) <= DIRECTION_MAX,
        abs(b as int) <= DIRECTION_MAX,
        abs(c as int) <= DIRECTION_MAX,
        abs(d as int) <= DIRECTION_MAX,
    ensures
        plus ==> r == trunc_div(2 * (a * b + c * d), UNIT as int),
        !plus ==> r == trunc_div(2 * (a * b - c * d), UNIT as int),
        abs(r as int) <= 4 * (DIRECTION_MAX * DIRECTION_MAX),
{
    proof {
        assert(abs(a * b) <= DIRECTION_MAX * DIRECTION_MAX && abs(c * d) <= DIRECTION_MAX * DIRECTION_MAX)
            by (nonlinear_arith)
            requires
                abs(a as int) <= DIRECTION_MAX,
                abs(b as int) <= DIRECTION_MAX,
                abs(c as int) <= DIRECTION_MAX,
                abs(d as int) <= DIRECTION_MAX,
        ;
    }
    let first = (a as i128) * (b as i128);
    let second = (c as i128) * (d as i128);
    let doubled = if plus {
        2 * (first + second)
    } else {
        2 * (first - second)
    };
    proof {
        lemma_trunc_div_shrinks(doubled as int, UNIT as int);
    }
    div_toward_zero(doubled, UNIT as i128) as i64
}

/// A quotient is no larger than what was divided.
proof fn lemma_trunc_div_shrinks(a: int, b: int)
    requires
        b > 0,
    ensures
        abs(trunc_div(a, b)) <= abs(a),
{
    assert(abs(trunc_div(a, b)) <= abs(a)) by (nonlinear_arith)
        requires
            b > 0,
            trunc_div(a, b) == (if a >= 0 {
                a / b
            } else {
                -((-a) / b)
            }),
    ;
}

/// The right, up and forward axes of the rotation `rot`: where it takes the
/// first, the second and the third axis. `rot` is meant to have the length
/// [`UNIT`]; each product of two of its components is rounded toward zero
/// when it is brought back to units of [`UNIT`].
pub fn get_rot_axes(rot: &Quat) -> (axes: (Vec3, Vec3, Vec3))
    requires
        abs(rot.x as int) <= DIRECTION_MAX,
        abs(rot.y as int) <= DIRECTION_MAX,
        abs(rot.z as int) <= DIRECTION_MAX,
        abs(rot.w as int) <= DIRECTION_MAX,
    ensures
        axes.0@ == rotated_x(rot@),
        axes.1@ == rotated_y(rot@),
        axes.2@ == rotated_z(rot@),
{
    (
        Vec3 {
            x: UNIT - paired(rot.y, rot.y, rot.z, rot.z, true),
            y: paired(rot.x, rot.y, rot.w, rot.z, true),
            z: paired(rot.x, rot.z, rot.w, rot.y, false),
        },
        Vec3 {
            x: paired(rot.x, rot.y, rot.w, rot.z, false),
            y: UNIT - paired(rot.x, rot.x, rot.z, rot.z, true),
            z: paired(rot.y, rot.z, rot.w, rot.x, true),
        },
        Vec3 {
            x: paired(rot.x, rot.z, rot.w, rot.y, true),
            y: paired(rot.y, rot.z, rot.w, rot.x, false),
            z: UNIT - paired(rot.x, rot.x, rot.y, rot.y, true),
        },
    )
}

} // verus!
