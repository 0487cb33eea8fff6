use vstd::prelude::*;

verus! {

/// A point or displacement in world space, in thousandths of a world unit.
#[derive(Clone, Copy, Debug, PartialEq, Eq, Structural)]
pub struct Vector3 {
    pub x: i32,
    pub y: i32,
    pub z: i32,
}

/// Length of a direction vector: directions are fixed-point, with this many
/// steps to one unit.
pub const UNIT: i64 = 1_000_000;

/// Division of `a` by a positive `b`, rounded toward zero.
pub open spec fn trunc_div(a: int, b: int) -> int {
    if a >= 0 {
        a / b
    } else {
        -((-a) / b)
    }
}

/// `v` limited to the `i32` range.
pub open spec fn clamp(v: int) -> i32 {
    if v > i32::MAX {
        i32::MAX
    } else if v < i32::MIN {
        i32::MIN
    } else {
        v as i32
    }
}

/// The length of the displacement `(dx, dy, dz)` in millionths of its
/// unit, rounded up: the divisor that scales it to a fixed-point unit vector.
pub open spec fn unit_divisor(dx: int, dy: int, dz: int) -> int {
    ceil_sqrt(sq_norm(dx, dy, dz) * (UNIT * UNIT))
}

/// The fixed-point unit vector from `pos` toward `target` (length `UNIT`, up
/// to rounding; see `lemma_heading_bounded`); the zero vector when they
/// coincide.
pub open spec fn heading(pos: Vector3, target: Vector3) -> Vector3 {
    let (dx, dy, dz) = (target.x - pos.x, target.y - pos.y, target.z - pos.z);
    let m = unit_divisor(dx, dy, dz);
    if m == 0 {
        Vector3 { x: 0, y: 0, z: 0 }
    } else {
        Vector3 {
            x: trunc_div(dx * (UNIT * UNIT), m) as i32,
            y: trunc_div(dy * (UNIT * UNIT), m) as i32,
            z: trunc_div(dz * (UNIT * UNIT), m) as i32,
        }
    }
}

/// The value fits an `i32`.
pub open spec fn fits_i32(v: int) -> bool {
    i32::MIN <= v <= i32::MAX
}

/// Squared Euclidean length of the displacement `(dx, dy, dz)`.
pub open spec fn sq_norm(dx: int, dy: int, dz: int) -> int {
    dx * dx + dy * dy + dz * dz
}

/// Squared Euclidean distance between two points.
pub open spec fn sq_dist(a: Vector3, b: Vector3) -> int {
    sq_norm(a.x - b.x, a.y - b.y, a.z - b.z)
}

/// `r` is the smallest non-negative integer whose square is at least `n`.
pub open spec fn is_ceil_sqrt(n: int, r: int) -> bool {
    &&& r >= 0
    &&& r * r >= n
    &&& (r == 0 || (r - 1) * (r - 1) < n)
}

/// The ceiling of the square root of `n` (0 for `n <= 0`).
pub open spec fn ceil_sqrt(n: int) -> int {
    choose|r: int| is_ceil_sqrt(n, r)
}

/// Euclidean distance between two points, rounded up to a whole thousandth.
pub open spec fn dist(a: Vector3, b: Vector3) -> int {
    ceil_sqrt(sq_dist(a, b))
}

/// Factor between squared thousandths and squared millionths.
pub const FINE_SQ: u128 = 1_000_000;

/// Euclidean distance between two points in millionths of a world unit,
/// rounded up: the edge length that searches add up.
pub open spec fn fine_dist(a: Vector3, b: Vector3) -> int {
    ceil_sqrt(sq_dist(a, b) * FINE_SQ)
}

/// Euclidean length of a vector, rounded up to a whole thousandth.
pub open spec fn magnitude_of(v: Vector3) -> int {
    ceil_sqrt(sq_norm(v.x as int, v.y as int, v.z as int))
}

/// At most one integer is the ceiling square root of `n`.
pub proof fn lemma_ceil_sqrt_unique(n: int, r1: int, r2: int)
    requires
        is_ceil_sqrt(n, r1),
        is_ceil_sqrt(n, r2),
    ensures
        r1 == r2,
{
    if r1 < r2 {
        assert((r2 - 1) * (r2 - 1) >= r1 * r1) by (nonlinear_arith)
            requires 0 <= r1 <= r2 - 1;
    } else if r2 < r1 {
        assert((r1 - 1) * (r1 - 1) >= r2 * r2) by (nonlinear_arith)
            requires 0 <= r2 <= r1 - 1;
    }
}

/// A witness `r` pins down `ceil_sqrt(n)`.
pub proof fn lemma_ceil_sqrt_is(n: int, r: int)
    requires
        is_ceil_sqrt(n, r),
    ensures
        ceil_sqrt(n) == r,
{
    let c = ceil_sqrt(n);
    assert(is_ceil_sqrt(n, c));
    lemma_ceil_sqrt_unique(n, r, c);
}

/// Ceiling square roots are monotone: `n <= k * k` bounds `ceil_sqrt(n)` by `k`.
pub proof fn lemma_ceil_sqrt_le(n: int, k: int)
    requires
        k >= 0,
        n <= k * k,
    ensures
        ceil_sqrt(n) <= k,
{
    let r = ceil_sqrt(n);
    lemma_ceil_sqrt_exists(n);
    if r > k {
        assert((r - 1) * (r - 1) >= k * k) by (nonlinear_arith)
            requires r - 1 >= k, k >= 0;
    }
}

/// Every integer has a ceiling square root.
pub proof fn lemma_ceil_sqrt_exists(n: int)
    ensures
        is_ceil_sqrt(n, ceil_sqrt(n)),
{
    if n <= 0 {
        assert(is_ceil_sqrt(n, 0));
    } else {
        lemma_ceil_sqrt_exists_pos(n as nat);
    }
}

proof fn lemma_ceil_sqrt_exists_pos(n: nat)
    ensures
        exists|r: int| is_ceil_sqrt(n as int, r),
    decreases n,
{
    if n == 0 {
        assert(is_ceil_sqrt(0, 0));
    } else {
        lemma_ceil_sqrt_exists_pos((n - 1) as nat);
        let r = ceil_sqrt(n - 1);
        if r * r >= n {
            assert(is_ceil_sqrt(n as int, r));
        } else {
            assert(r * r == n - 1);
            assert((r + 1) * (r + 1) >= n) by (nonlinear_arith)
                requires r * r == n - 1, r >= 0;
            assert(is_ceil_sqrt(n as int, r + 1));
        }
    }
}

proof fn lemma_sq_prod(u: int, v: int)
    ensures
        (u * u) * (v * v) == (u * v) * (u * v),
{
    assert((u * u) * (v * v) == (u * v) * (u * v)) by (nonlinear_arith);
}

proof fn lemma_cross_prod(ui: int, vi: int, uj: int, vj: int)
    ensures
        (ui * vi) * (uj * vj) == (ui * vj) * (uj * vi),
{
    assert((ui * vi) * (uj * vj) == (ui * vj) * (uj * vi)) by (nonlinear_arith);
}

/// Cauchy-Schwarz in three dimensions, squared form.
proof fn lemma_cauchy_schwarz(u0: int, u1: int, u2: int, v0: int, v1: int, v2: int)
    ensures
        (u0 * v0 + u1 * v1 + u2 * v2) * (u0 * v0 + u1 * v1 + u2 * v2)
            <= sq_norm(u0, u1, u2) * sq_norm(v0, v1, v2),
{
    let (a00, a01, a02) = (u0 * v0, u0 * v1, u0 * v2);
    let (a10, a11, a12) = (u1 * v0, u1 * v1, u1 * v2);
    let (a20, a21, a22) = (u2 * v0, u2 * v1, u2 * v2);
    let (s0, s1, s2) = (u0 * u0, u1 * u1, u2 * u2);
    let (t0, t1, t2) = (v0 * v0, v1 * v1, v2 * v2);
    lemma_sq_prod(u0, v0); lemma_sq_prod(u0, v1); lemma_sq_prod(u0, v2);
    lemma_sq_prod(u1, v0); lemma_sq_prod(u1, v1); lemma_sq_prod(u1, v2);
    lemma_sq_prod(u2, v0); lemma_sq_prod(u2, v1); lemma_sq_prod(u2, v2);
    lemma_cross_prod(u0, v0, u1, v1);
    lemma_cross_prod(u0, v0, u2, v2);
    lemma_cross_prod(u1, v1, u2, v2);
    assert((s0 + s1 + s2) * (t0 + t1 + t2) == s0 * t0 + s0 * t1 + s0 * t2 + s1 * t0 + s1 * t1
        + s1 * t2 + s2 * t0 + s2 * t1 + s2 * t2) by (nonlinear_arith);
    lemma_two_prod_le(a01, a10);
    lemma_two_prod_le(a02, a20);
    lemma_two_prod_le(a12, a21);
    assert((a00 + a11 + a22) * (a00 + a11 + a22) == a00 * a00 + a11 * a11 + a22 * a22 + 2 * (a00
        * a11) + 2 * (a00 * a22) + 2 * (a11 * a22)) by (nonlinear_arith);
}

proof fn lemma_two_prod_le(x: int, y: int)
    ensures
        2 * (x * y) <= x * x + y * y,
{
    assert((x - y) * (x - y) >= 0) by (nonlinear_arith);
    assert((x - y) * (x - y) == x * x + y * y - 2 * (x * y)) by (nonlinear_arith);
}

/// Fine distances obey the triangle inequality.
pub proof fn lemma_fine_dist_triangle(a: Vector3, b: Vector3, c: Vector3)
    ensures
        fine_dist(a, c) <= fine_dist(a, b) + fine_dist(b, c),
{
    let k = FINE_SQ as int;
    assert(k == 1_000_000);
    let (ux, uy, uz) = (b.x - a.x, b.y - a.y, b.z - a.z);
    let (vx, vy, vz) = (c.x - b.x, c.y - b.y, c.z - b.z);
    let p = fine_dist(a, b);
    let q = fine_dist(b, c);
    lemma_ceil_sqrt_exists(sq_dist(a, b) * k);
    lemma_ceil_sqrt_exists(sq_dist(b, c) * k);
    let nu = sq_norm(ux, uy, uz);
    let nv = sq_norm(vx, vy, vz);
    assert(nu == sq_dist(a, b)) by (nonlinear_arith)
        requires ux == b.x - a.x, uy == b.y - a.y, uz == b.z - a.z, nu == sq_norm(ux, uy, uz);
    assert(nv == sq_dist(b, c)) by (nonlinear_arith)
        requires vx == c.x - b.x, vy == c.y - b.y, vz == c.z - b.z, nv == sq_norm(vx, vy, vz);
    let d = ux * vx + uy * vy + uz * vz;
    lemma_cauchy_schwarz(ux, uy, uz, vx, vy, vz);
    assert(nu >= 0 && nv >= 0) by (nonlinear_arith)
        requires nu == sq_norm(ux, uy, uz), nv == sq_norm(vx, vy, vz);
    let (bu, bv, bd) = (nu * k, nv * k, d * k);
    assert(bd * bd <= bu * bv) by (nonlinear_arith)
        requires d * d <= nu * nv, bu == nu * k, bv == nv * k, bd == d * k, k > 0;
    assert(bu >= 0 && bv >= 0) by (nonlinear_arith)
        requires bu == nu * k, bv == nv * k, nu >= 0, nv >= 0, k > 0;
    assert(bd <= p * q) by (nonlinear_arith)
        requires bd * bd <= bu * bv, bu <= p * p, bv <= q * q, p >= 0, q >= 0, bu >= 0, bv >= 0;
    assert(sq_dist(a, c) == nu + 2 * d + nv) by (nonlinear_arith)
        requires
            ux == b.x - a.x, uy == b.y - a.y, uz == b.z - a.z,
            vx == c.x - b.x, vy == c.y - b.y, vz == c.z - b.z,
            nu == sq_norm(ux, uy, uz), nv == sq_norm(vx, vy, vz),
            d == ux * vx + uy * vy + uz * vz;
    assert(sq_dist(a, c) * k == bu + 2 * bd + bv) by (nonlinear_arith)
        requires sq_dist(a, c) == nu + 2 * d + nv, bu == nu * k, bv == nv * k, bd == d * k;
    assert(sq_dist(a, c) * k <= (p + q) * (p + q)) by (nonlinear_arith)
        requires sq_dist(a, c) * k == bu + 2 * bd + bv, bu <= p * p, bv <= q * q, bd <= p * q;
    lemma_ceil_sqrt_le(sq_dist(a, c) * k, p + q);
}

/// A heading is a unit vector up to rounding: each component lies within
/// `[-UNIT, UNIT]`, and the squared length is at most `UNIT * UNIT` and, for
/// distinct points, at least `UNIT * UNIT - 9 * UNIT`.
pub proof fn lemma_heading_bounded(pos: Vector3, target: Vector3)
    ensures
        -UNIT <= heading(pos, target).x <= UNIT,
        -UNIT <= heading(pos, target).y <= UNIT,
        -UNIT <= heading(pos, target).z <= UNIT,
        sq_norm(heading(pos, target).x as int, heading(pos, target).y as int, heading(pos, target).z as int)
            <= UNIT * UNIT,
        pos != target ==> sq_norm(heading(pos, target).x as int, heading(pos, target).y as int, heading(pos, target).z as int)
            >= UNIT * UNIT - 9 * UNIT,
{
    let (dx, dy, dz) = (target.x - pos.x, target.y - pos.y, target.z - pos.z);
    let a = UNIT * UNIT;
    let sq = sq_norm(dx, dy, dz);
    let m = unit_divisor(dx, dy, dz);
    assert(sq >= 0 && dx * dx >= 0 && dy * dy >= 0 && dz * dz >= 0) by (nonlinear_arith)
        requires sq == sq_norm(dx, dy, dz);
    lemma_ceil_sqrt_exists(sq * a);
    if m == 0 {
        assert(sq * a <= 0);
        assert(sq == 0) by (nonlinear_arith)
            requires sq * a <= 0, sq >= 0, a == 1_000_000_000_000;
        assert(dx * dx == 0 && dy * dy == 0 && dz * dz == 0);
        assert(dx == 0 && dy == 0 && dz == 0) by (nonlinear_arith)
            requires dx * dx == 0, dy * dy == 0, dz * dz == 0;
        assert(heading(pos, target) == (Vector3 { x: 0, y: 0, z: 0 }));
    } else {
        assert((dx * dx) * a <= m * m && (dy * dy) * a <= m * m && (dz * dz) * a <= m * m) by (nonlinear_arith)
            requires
                m * m >= sq * a,
                sq == dx * dx + dy * dy + dz * dz,
                dx * dx >= 0, dy * dy >= 0, dz * dz >= 0,
                a > 0;
        let (kx, ky, kz) = (lemma_scaled_part(dx, a, m), lemma_scaled_part(dy, a, m), lemma_scaled_part(dz, a, m));
        lemma_unit_length(dx * dx, dy * dy, dz * dz, kx, ky, kz, m);
        if pos != target {
            assert(sq >= 1) by (nonlinear_arith)
                requires sq == dx * dx + dy * dy + dz * dz, dx != 0 || dy != 0 || dz != 0;
        }
    }
}

/// Scaling one coordinate: `k = |trunc_div(o * a, m)|` meets
/// `m * k <= |o| * a < m * (k + 1)`.
proof fn lemma_scaled_part(o: int, a: int, m: int) -> (k: int)
    requires
        m > 0,
        a > 0,
        (o * o) * a <= m * m,
    ensures
        k >= 0,
        k * k == trunc_div(o * a, m) * trunc_div(o * a, m),
        m * k <= (if o >= 0 { o } else { -o }) * a,
        (if o >= 0 { o } else { -o }) * a < m * (k + 1),
        (o * o) * (a * a) < (m * m) * ((k + 1) * (k + 1)),
        (m * m) * (k * k) <= (o * o) * (a * a),
        k * k <= a,
        a == UNIT * UNIT ==> k <= UNIT,
        trunc_div(o * a, m) == k || trunc_div(o * a, m) == -k,
{
    let ab = if o >= 0 { o } else { -o };
    let x = ab * a;
    assert(x >= 0 && x == (if o * a >= 0 { o * a } else { -(o * a) })) by (nonlinear_arith)
        requires ab == (if o >= 0 { o } else { -o }), a > 0, x == ab * a;
    let k = x / m;
    vstd::arithmetic::div_mod::lemma_fundamental_div_mod(x, m);
    vstd::arithmetic::div_mod::lemma_mod_pos_bound(x, m);
    assert(m * k <= x < m * (k + 1)) by (nonlinear_arith)
        requires x == m * k + x % m, 0 <= x % m < m;
    assert(k >= 0) by (nonlinear_arith)
        requires m * k <= x, x < m * (k + 1), m > 0, x >= 0;
    assert(ab * ab == o * o) by (nonlinear_arith)
        requires ab == (if o >= 0 { o } else { -o });
    assert(x * x < (m * m) * ((k + 1) * (k + 1))) by (nonlinear_arith)
        requires 0 <= x < m * (k + 1);
    assert((m * m) * (k * k) <= x * x) by (nonlinear_arith)
        requires 0 <= m * k <= x;
    assert(x * x == (o * o) * (a * a)) by (nonlinear_arith)
        requires x == ab * a, ab * ab == o * o;
    assert(k * k <= a) by (nonlinear_arith)
        requires (m * m) * (k * k) <= (o * o) * (a * a), (o * o) * a <= m * m, a > 0, m > 0, k >= 0;
    if o * a < 0 {
        assert(-(o * a) == x);
    }
    let q = trunc_div(o * a, m);
    assert(q * q == k * k) by (nonlinear_arith)
        requires q == k || q == -k;
    if a == UNIT * UNIT {
        assert(k <= UNIT) by (nonlinear_arith)
            requires k * k <= a, a == 1_000_000 * 1_000_000, k >= 0;
    }
    k
}

/// The length bounds of a scaled vector, from the per-coordinate bounds.
proof fn lemma_unit_length(sx: int, sy: int, sz: int, kx: int, ky: int, kz: int, m: int)
    requires
        m > 0,
        sx >= 0,
        sy >= 0,
        sz >= 0,
        kx >= 0,
        ky >= 0,
        kz >= 0,
        is_ceil_sqrt((sx + sy + sz) * (UNIT * UNIT), m),
        sx * ((UNIT * UNIT) * (UNIT * UNIT)) < (m * m) * ((kx + 1) * (kx + 1)),
        sy * ((UNIT * UNIT) * (UNIT * UNIT)) < (m * m) * ((ky + 1) * (ky + 1)),
        sz * ((UNIT * UNIT) * (UNIT * UNIT)) < (m * m) * ((kz + 1) * (kz + 1)),
        (m * m) * (kx * kx) <= sx * ((UNIT * UNIT) * (UNIT * UNIT)),
        (m * m) * (ky * ky) <= sy * ((UNIT * UNIT) * (UNIT * UNIT)),
        (m * m) * (kz * kz) <= sz * ((UNIT * UNIT) * (UNIT * UNIT)),
        kx <= UNIT,
        ky <= UNIT,
        kz <= UNIT,
    ensures
        kx * kx + ky * ky + kz * kz <= UNIT * UNIT,
        sx + sy + sz >= 1 ==> kx * kx + ky * ky + kz * kz >= UNIT * UNIT - 9 * UNIT,
{
    let u = UNIT as int;
    let a = u * u;
    assert(u == 1_000_000);
    let s = sx + sy + sz;
    let kk = kx * kx + ky * ky + kz * kz;
    // Upper bound: m^2 * kk <= s * a^2 <= m^2 * a.
    assert((m * m) * kk <= s * (a * a)) by (nonlinear_arith)
        requires
            (m * m) * (kx * kx) <= sx * (a * a),
            (m * m) * (ky * ky) <= sy * (a * a),
            (m * m) * (kz * kz) <= sz * (a * a),
            kk == kx * kx + ky * ky + kz * kz,
            s == sx + sy + sz;
    assert(s * (a * a) <= (m * m) * a) by (nonlinear_arith)
        requires s * a <= m * m, a > 0;
    assert(kk <= a) by (nonlinear_arith)
        requires (m * m) * kk <= (m * m) * a, m > 0;
    if s >= 1 {
        // m <= u * s, from (m - 1)^2 < s * a.
        assert(m <= u * s) by (nonlinear_arith)
            requires (m - 1) * (m - 1) < s * a, a == u * u, s >= 1, u > 0, m > 0;
        let l = kx + ky + kz;
        let t = (kx + 1) * (kx + 1) + (ky + 1) * (ky + 1) + (kz + 1) * (kz + 1);
        assert(t == kk + 2 * l + 3) by (nonlinear_arith)
            requires t == (kx + 1) * (kx + 1) + (ky + 1) * (ky + 1) + (kz + 1) * (kz + 1), kk == kx * kx + ky * ky + kz * kz, l == kx + ky + kz;
        assert(s * (a * a) < (m * m) * t) by (nonlinear_arith)
            requires
                sx * (a * a) < (m * m) * ((kx + 1) * (kx + 1)),
                sy * (a * a) < (m * m) * ((ky + 1) * (ky + 1)),
                sz * (a * a) < (m * m) * ((kz + 1) * (kz + 1)),
                t == (kx + 1) * (kx + 1) + (ky + 1) * (ky + 1) + (kz + 1) * (kz + 1),
                s == sx + sy + sz;
        assert(m * m < s * a + 2 * m) by (nonlinear_arith)
            requires (m - 1) * (m - 1) < s * a;
        if kk < a - 9 * u {
            assert(t <= a - 3 * u + 2);
            assert((m * m) * t <= (s * a + 2 * m) * (a - 3 * u + 2)) by (nonlinear_arith)
                requires m * m < s * a + 2 * m, t <= a - 3 * u + 2, t >= 0, a - 3 * u + 2 > 0;
            assert(2 * m * a <= 2 * u * (s * a)) by (nonlinear_arith)
                requires m <= u * s, a > 0, u > 0;
            assert((s * a + 2 * m) * (a - 3 * u + 2) < s * (a * a)) by (nonlinear_arith)
                requires 2 * m * a <= 2 * u * (s * a), s >= 1, m > 0, u == 1_000_000, a == u * u;
        }
    }
}

/// Smallest `r` with `r * r >= n`, found by bisection.
pub fn ceil_sqrt_u128(n: u128) -> (r: u64)
    requires
        n <= 0x4000_0000_0000_0000_0000_0000_0000u128,
    ensures
        is_ceil_sqrt(n as int, r as int),
        r as int == ceil_sqrt(n as int),
        r <= 0x80_0000_0000_0000u64,
        n <= 0x4_0000_0000_0000_0000u128 ==> r <= 0x2_0000_0000u64,
{
    let mut lo: u64 = 0;
    let mut hi: u64 = 0x80_0000_0000_0000u64;
    assert(hi as int * hi as int == 0x4000_0000_0000_0000_0000_0000_0000int);
    while lo < hi
        invariant
            lo <= hi <= 0x80_0000_0000_0000u64,
            hi as int * hi as int >= n as int,
            lo == 0 || (lo as int - 1) * (lo as int - 1) < n as int,
        decreases hi - lo,
    {
        let mid: u64 = lo + (hi - lo) / 2;
        assert(mid as int * mid as int <= 0x4000_0000_0000_0000_0000_0000_0000int) by (nonlinear_arith)
            requires mid <= 0x80_0000_0000_0000u64;
        let m2: u128 = mid as u128 * mid as u128;
        if m2 >= n {
            hi = mid;
        } else {
            lo = mid + 1;
        }
    }
    proof {
        lemma_ceil_sqrt_is(n as int, lo as int);
        if n <= 0x4_0000_0000_0000_0000u128 {
            lemma_ceil_sqrt_le(n as int, 0x2_0000_0000);
        }
    }
    lo
}

/// The square of a coordinate difference, exactly.
fn sq_diff(a: i32, b: i32) -> (r: u128)
    ensures
        r as int == (a - b) * (a - b),
        r <= 0x1_0000_0000_0000_0000u128,
{
    let d: i64 = a as i64 - b as i64;
    let m: u64 = if d < 0 { (0 - d) as u64 } else { d as u64 };
    assert(m as int * m as int <= 0x1_0000_0000_0000_0000int) by (nonlinear_arith)
        requires m <= 0x1_0000_0000u64;
    assert(m as int * m as int == (a - b) * (a - b)) by (nonlinear_arith)
        requires m == d || m == -d, d == a - b;
    m as u128 * m as u128
}

pub(crate) fn trunc_div_exec(a: i128, b: i128) -> (r: i128)
    requires
        b > 0,
        -0x1_0000_0000_0000_0000_0000_0000_0000 < a < 0x1_0000_0000_0000_0000_0000_0000_0000,
    ensures
        r == trunc_div(a as int, b as int),
{
    if a >= 0 {
        a / b
    } else {
        let m: i128 = -a;
        -(m / b)
    }
}

pub(crate) fn clamp_exec(v: i128) -> (r: i32)
    ensures
        r == clamp(v as int),
{
    if v > 0x7fff_ffff {
        0x7fff_ffff
    } else if v < -0x8000_0000 {
        -0x8000_0000
    } else {
        v as i32
    }
}

/// One coordinate of `heading`.
fn heading_coord(p: i32, t: i32, m: u64) -> (r: i128)
    requires
        m > 0,
    ensures
        r == trunc_div((t - p) * (UNIT * UNIT), m as int),
{
    let o: i128 = t as i128 - p as i128;
    let a: i128 = 1_000_000_000_000;
    assert(-0x1_0000_0000_0000_0000_0000_0000 < o * a < 0x1_0000_0000_0000_0000_0000_0000) by (nonlinear_arith)
        requires -0x1_0000_0000 <= o <= 0x1_0000_0000, a == 1_000_000_000_000;
    trunc_div_exec(o * a, m as i128)
}

/// The product of two `i32` values fits an `i64`.
proof fn lemma_product_fits_i64(a: int, b: int)
    requires
        fits_i32(a),
        fits_i32(b),
    ensures
        -0x4000_0000_0000_0000 <= a * b <= 0x4000_0000_0000_0000,
{
    assert(-0x4000_0000_0000_0000 <= a * b <= 0x4000_0000_0000_0000) by (nonlinear_arith)
        requires -0x8000_0000 <= a <= 0x8000_0000, -0x8000_0000 <= b <= 0x8000_0000;
}

/// Dividing by a positive number, rounding toward zero, does not grow a value.
proof fn lemma_trunc_div_shrinks(a: int, k: int)
    requires
        k > 0,
    ensures
        -(if a >= 0 { a } else { -a }) <= trunc_div(a, k) <= (if a >= 0 { a } else { -a }),
{
    if a >= 0 {
        assert(0 <= a / k <= a) by (nonlinear_arith)
            requires a >= 0, k > 0;
    } else {
        assert(0 <= (-a) / k <= -a) by (nonlinear_arith)
            requires -a > 0, k > 0;
    }
}

/// Dividing an `i32` by at least 2 lands strictly inside the `i32` range.
proof fn lemma_trunc_div_smaller(a: int, k: int)
    requires
        fits_i32(a),
        k >= 2,
    ensures
        -0x7fff_ffff <= trunc_div(a, k) <= 0x7fff_ffff,
{
    if a >= 0 {
        assert(a / k <= a / 2) by (nonlinear_arith)
            requires a >= 0, k >= 2;
    } else {
        assert((-a) / k <= (-a) / 2) by (nonlinear_arith)
            requires -a > 0, k >= 2;
    }
}

impl Vector3 {
    /// The origin `(0, 0, 0)`.
    pub fn origin() -> (r: Vector3)
        ensures
            r == (Vector3 { x: 0, y: 0, z: 0 }),
    {
        Vector3 { x: 0, y: 0, z: 0 }
    }

    pub fn new(x: i32, y: i32, z: i32) -> (r: Vector3)
        ensures
            r == (Vector3 { x, y, z }),
    {
        Vector3 { x, y, z }
    }

    /// A vector from the first three entries of `v`.
    pub fn from_vec(v: &Vec<i32>) -> (r: Vector3)
        requires
            v@.len() >= 3,
        ensures
            r == (Vector3 { x: v@[0], y: v@[1], z: v@[2] }),
    {
        Vector3 { x: v[0], y: v[1], z: v[2] }
    }

    /// The fixed-point unit vector from `self` toward `target`; the zero
    /// vector when they coincide.
    pub fn unit_toward(&self, target: &Vector3) -> (r: Vector3)
        ensures
            r == heading(*self, *target),
            -UNIT <= r.x <= UNIT,
            -UNIT <= r.y <= UNIT,
            -UNIT <= r.z <= UNIT,
            sq_norm(r.x as int, r.y as int, r.z as int) <= UNIT * UNIT,
            *self != *target ==> sq_norm(r.x as int, r.y as int, r.z as int) >= UNIT * UNIT - 9 * UNIT,
    {
        proof {
            lemma_heading_bounded(*self, *target);
        }
        let sq = self.sq_distance(target);
        let ghost (dx, dy, dz) = (target.x - self.x, target.y - self.y, target.z - self.z);
        assert(sq == sq_norm(dx, dy, dz)) by (nonlinear_arith)
            requires
                sq == sq_norm(self.x - target.x, self.y - target.y, self.z - target.z),
                dx == target.x - self.x, dy == target.y - self.y, dz == target.z - self.z;
        assert(sq * 1_000_000_000_000 <= 0x4000_0000_0000_0000_0000_0000_0000) by (nonlinear_arith)
            requires sq <= 0x3_0000_0000_0000_0000u128;
        let scaled: u128 = sq * 1_000_000_000_000;
        let m = ceil_sqrt_u128(scaled);
        if m == 0 {
            return Vector3 { x: 0, y: 0, z: 0 };
        }
        let x = heading_coord(self.x, target.x, m);
        let y = heading_coord(self.y, target.y, m);
        let z = heading_coord(self.z, target.z, m);
        Vector3 { x: x as i32, y: y as i32, z: z as i32 }
    }

    /// The fixed-point unit vector along `self`; the zero vector stays zero.
    pub fn unit(&self) -> (r: Vector3)
        ensures
            r == heading(Vector3 { x: 0, y: 0, z: 0 }, *self),
    {
        Vector3::origin().unit_toward(self)
    }

    /// Replaces `self` by its fixed-point unit vector, and returns it.
    pub fn normalize(&mut self) -> (r: Vector3)
        ensures
            *final(self) == heading(Vector3 { x: 0, y: 0, z: 0 }, *old(self)),
            r == *final(self),
    {
        *self = self.unit();
        *self
    }

    /// The sum `self + v`.
    pub fn plus(&self, v: &Vector3) -> (r: Vector3)
        requires
            fits_i32(self.x + v.x),
            fits_i32(self.y + v.y),
            fits_i32(self.z + v.z),
        ensures
            r.x == self.x + v.x,
            r.y == self.y + v.y,
            r.z == self.z + v.z,
    {
        Vector3 { x: self.x + v.x, y: self.y + v.y, z: self.z + v.z }
    }

    /// The difference `self - v`.
    pub fn minus(&self, v: &Vector3) -> (r: Vector3)
        requires
            fits_i32(self.x - v.x),
            fits_i32(self.y - v.y),
            fits_i32(self.z - v.z),
        ensures
            r.x == self.x - v.x,
            r.y == self.y - v.y,
            r.z == self.z - v.z,
    {
        Vector3 { x: self.x - v.x, y: self.y - v.y, z: self.z - v.z }
    }

    /// The product `self * k`.
    pub fn times(&self, k: i32) -> (r: Vector3)
        requires
            fits_i32(self.x * k),
            fits_i32(self.y * k),
            fits_i32(self.z * k),
        ensures
            r.x == self.x * k,
            r.y == self.y * k,
            r.z == self.z * k,
    {
        let x = (self.x as i64 * k as i64) as i32;
        let y = (self.y as i64 * k as i64) as i32;
        let z = (self.z as i64 * k as i64) as i32;
        proof {
            lemma_product_fits_i64(self.x as int, k as int);
            lemma_product_fits_i64(self.y as int, k as int);
            lemma_product_fits_i64(self.z as int, k as int);
        }
        Vector3 { x, y, z }
    }

    /// The quotient `self / k`, each coordinate rounded toward zero.
    pub fn div_by(&self, k: i32) -> (r: Vector3)
        requires
            k != 0,
            k == -1 ==> self.x != i32::MIN && self.y != i32::MIN && self.z != i32::MIN,
        ensures
            k > 0 ==> r.x == trunc_div(self.x as int, k as int) && r.y == trunc_div(self.y as int, k as int)
                && r.z == trunc_div(self.z as int, k as int),
            k < 0 ==> r.x == -trunc_div(self.x as int, -k) && r.y == -trunc_div(self.y as int, -k)
                && r.z == -trunc_div(self.z as int, -k),
    {
        let kk: i128 = if k > 0 { k as i128 } else { -(k as i128) };
        let x = trunc_div_exec(self.x as i128, kk);
        let y = trunc_div_exec(self.y as i128, kk);
        let z = trunc_div_exec(self.z as i128, kk);
        proof {
            lemma_trunc_div_shrinks(self.x as int, kk as int);
            lemma_trunc_div_shrinks(self.y as int, kk as int);
            lemma_trunc_div_shrinks(self.z as int, kk as int);
            if kk == 1 {
                assert(trunc_div(self.x as int, 1) == self.x && trunc_div(self.y as int, 1) == self.y
                    && trunc_div(self.z as int, 1) == self.z);
            }
            if kk > 1 {
                lemma_trunc_div_smaller(self.x as int, kk as int);
                lemma_trunc_div_smaller(self.y as int, kk as int);
                lemma_trunc_div_smaller(self.z as int, kk as int);
            }
        }
        if k > 0 {
            Vector3 { x: x as i32, y: y as i32, z: z as i32 }
        } else {
            Vector3 { x: (-x) as i32, y: (-y) as i32, z: (-z) as i32 }
        }
    }

    /// The dot product, exactly.
    pub fn dot(&self, v: &Vector3) -> (r: i128)
        ensures
            r == self.x * v.x + self.y * v.y + self.z * v.z,
    {
        proof {
            lemma_product_fits_i64(self.x as int, v.x as int);
            lemma_product_fits_i64(self.y as int, v.y as int);
            lemma_product_fits_i64(self.z as int, v.z as int);
        }
        let a = self.x as i64 * v.x as i64;
        let b = self.y as i64 * v.y as i64;
        let c = self.z as i64 * v.z as i64;
        a as i128 + b as i128 + c as i128
    }

    /// The cross product `self x v`.
    pub fn cross(&self, v: Vector3) -> (r: Vector3)
        requires
            fits_i32(self.y * v.z - self.z * v.y),
            fits_i32(self.z * v.x - self.x * v.z),
            fits_i32(self.x * v.y - self.y * v.x),
        ensures
            r.x == self.y * v.z - self.z * v.y,
            r.y == self.z * v.x - self.x * v.z,
            r.z == self.x * v.y - self.y * v.x,
    {
        proof {
            lemma_product_fits_i64(self.y as int, v.z as int);
            lemma_product_fits_i64(self.z as int, v.y as int);
            lemma_product_fits_i64(self.z as int, v.x as int);
            lemma_product_fits_i64(self.x as int, v.z as int);
            lemma_product_fits_i64(self.x as int, v.y as int);
            lemma_product_fits_i64(self.y as int, v.x as int);
        }
        let x = self.y as i128 * v.z as i128 - self.z as i128 * v.y as i128;
        let y = self.z as i128 * v.x as i128 - self.x as i128 * v.z as i128;
        let z = self.x as i128 * v.y as i128 - self.y as i128 * v.x as i128;
        Vector3 { x: x as i32, y: y as i32, z: z as i32 }
    }

    /// Squared Euclidean distance to `v`, exactly.
    pub fn sq_distance(&self, v: &Vector3) -> (r: u128)
        ensures
            r as int == sq_dist(*self, *v),
            r <= 0x3_0000_0000_0000_0000u128,
    {
        sq_diff(self.x, v.x) + sq_diff(self.y, v.y) + sq_diff(self.z, v.z)
    }

    /// Euclidean distance to `v`, rounded up to a whole thousandth.
    pub fn distance(&self, v: &Vector3) -> (r: u64)
        ensures
            r as int == dist(*self, *v),
            r <= 0x2_0000_0000u64,
    {
        ceil_sqrt_u128(self.sq_distance(v))
    }

    /// Euclidean distance to `v` in millionths of a world unit, rounded up.
    pub fn fine_distance(&self, v: &Vector3) -> (r: u64)
        ensures
            r as int == fine_dist(*self, *v),
            r <= 0x1000_0000_0000u64,
    {
        let sq = self.sq_distance(v);
        assert(sq * FINE_SQ <= 0x3_0000_0000_0000_0000u128 * 1_000_000) by (nonlinear_arith)
            requires sq <= 0x3_0000_0000_0000_0000u128;
        let r = ceil_sqrt_u128(sq * FINE_SQ);
        proof {
            lemma_ceil_sqrt_le((sq * FINE_SQ) as int, 0x1000_0000_0000);
        }
        r
    }

    /// Euclidean length, rounded up to a whole thousandth.
    pub fn magnitude(&self) -> (r: u64)
        ensures
            r as int == magnitude_of(*self),
            r <= 0x2_0000_0000u64,
    {
        let o = Vector3::origin();
        let r = self.distance(&o);
        assert(sq_dist(*self, o) == sq_norm(self.x as int, self.y as int, self.z as int));
        r
    }
}

} // verus!
