use vstd::prelude::*;

verus! {

/// A translation and a rotation, in integers, as they stand in a node.
pub struct Affine {
    pub t: Seq<int>,
    pub r: Seq<Seq<int>>,
}

/// A translation vector and a row-major rotation matrix.
#[derive(Clone, Copy, Debug, PartialEq)]
pub struct Transform {
    /// Translation
    pub t: [i32; 3],
    /// Row-major rotation matrix
    pub r: [[i8; 3]; 3],
}

pub open spec fn vec_model(t: [i32; 3]) -> Seq<int> {
    Seq::new(3, |i: int| t[i] as int)
}

pub open spec fn mat_model(m: [[i8; 3]; 3]) -> Seq<Seq<int>> {
    Seq::new(3, |i: int| Seq::new(3, |j: int| m[i][j] as int))
}

impl View for Transform {
    type V = Affine;

    open spec fn view(&self) -> Affine {
        Affine { t: vec_model(self.t), r: mat_model(self.r) }
    }
}

pub open spec fn identity_matrix() -> Seq<Seq<int>> {
    Seq::new(3, |i: int| Seq::new(3, |j: int| if i == j { 1int } else { 0int }))
}

pub open spec fn identity() -> Affine {
    Affine { t: Seq::new(3, |i: int| 0int), r: identity_matrix() }
}

pub open spec fn dot3(u: Seq<int>, v: Seq<int>) -> int {
    u[0] * v[0] + u[1] * v[1] + u[2] * v[2]
}

pub open spec fn column(m: Seq<Seq<int>>, j: int) -> Seq<int> {
    seq![m[0][j], m[1][j], m[2][j]]
}

pub open spec fn mat_vec(m: Seq<Seq<int>>, v: Seq<int>) -> Seq<int> {
    Seq::new(3, |i: int| dot3(m[i], v))
}

pub open spec fn mat_mul(m: Seq<Seq<int>>, n: Seq<Seq<int>>) -> Seq<Seq<int>> {
    Seq::new(3, |i: int| Seq::new(3, |j: int| dot3(m[i], column(n, j))))
}

pub open spec fn vec_add(u: Seq<int>, v: Seq<int>) -> Seq<int> {
    Seq::new(3, |i: int| u[i] + v[i])
}

/// The transform that applies `inner` first and `outer` after it:
/// `x -> outer.r * (inner.r * x + inner.t) + outer.t`.
pub open spec fn compose(inner: Affine, outer: Affine) -> Affine {
    Affine { t: vec_add(mat_vec(outer.r, inner.t), outer.t), r: mat_mul(outer.r, inner.r) }
}

/// Three translation components and a 3x3 matrix.
pub open spec fn shaped(a: Affine) -> bool {
    &&& a.t.len() == 3
    &&& a.r.len() == 3
    &&& forall|i: int| 0 <= i < 3 ==> #[trigger] a.r[i].len() == 3
}

/// Every translation component fits an `i32` and every rotation entry an `i8`.
pub open spec fn fits(a: Affine) -> bool {
    &&& forall|i: int| 0 <= i < 3 ==> i32::MIN <= #[trigger] a.t[i] <= i32::MAX
    &&& forall|i: int, j: int| 0 <= i < 3 && 0 <= j < 3 ==> i8::MIN <= #[trigger] a.r[i][j] <= i8::MAX
}

fn mul_small(x: i8, y: i32) -> (r: i64)
    ensures
        r == x * y,
        -128 * 0x8000_0000 <= r <= 128 * 0x8000_0000,
{
    assert(-128 * 0x8000_0000 <= (x as int) * (y as int) <= 128 * 0x8000_0000) by (nonlinear_arith)
        requires
            -128 <= x <= 127,
            -0x8000_0000 <= y <= 0x7fff_ffff,
    ;
    (x as i64) * (y as i64)
}

fn row_times_vec(m: [[i8; 3]; 3], i: usize, v: [i32; 3]) -> (r: i64)
    requires
        i < 3,
    ensures
        r == dot3(mat_model(m)[i as int], vec_model(v)),
        -3 * 128 * 0x8000_0000 <= r <= 3 * 128 * 0x8000_0000,
{
    let row = m[i];
    mul_small(row[0], v[0]) + mul_small(row[1], v[1]) + mul_small(row[2], v[2])
}

fn row_times_column(m: [[i8; 3]; 3], i: usize, n: [[i8; 3]; 3], j: usize) -> (r: i64)
    requires
        i < 3,
        j < 3,
    ensures
        r == dot3(mat_model(m)[i as int], column(mat_model(n), j as int)),
{
    let row = m[i];
    mul_small(row[0], n[0][j] as i32) + mul_small(row[1], n[1][j] as i32) + mul_small(
        row[2],
        n[2][j] as i32,
    )
}

impl Transform {
    /// The transform that leaves every point where it is.
    pub fn default() -> (r: Self)
        ensures
            r@ == identity(),
    {
        let r = Transform { t: [0, 0, 0], r: [[1, 0, 0], [0, 1, 0], [0, 0, 1]] };
        assert(r@.t =~= identity().t);
        assert(r@.r =~~= identity().r);
        r
    }

    /// `apply`, where its result fits the fields; `None` where it does not.
    pub fn apply_checked(self, other: Self) -> (r: Option<Self>)
        ensures
            r is None <==> !fits(compose(self@, other@)),
            r matches Some(x) ==> x@ == compose(self@, other@),
    {
        let ghost c = compose(self@, other@);
        let mut i: usize = 0;
        while i < 3
            invariant
                i <= 3,
                c == compose(self@, other@),
                forall|k: int| 0 <= k < i ==> i32::MIN <= #[trigger] c.t[k] <= i32::MAX,
                forall|k: int, j: int|
                    0 <= k < i && 0 <= j < 3 ==> i8::MIN <= #[trigger] c.r[k][j] <= i8::MAX,
            decreases 3 - i,
        {
            let v = row_times_vec(other.r, i, self.t) + other.t[i] as i64;
            assert(v == c.t[i as int]);
            if v < i32::MIN as i64 || v > i32::MAX as i64 {
                return None;
            }
            let mut j: usize = 0;
            while j < 3
                invariant
                    i < 3,
                    j <= 3,
                    c == compose(self@, other@),
                    forall|l: int| 0 <= l < j ==> i8::MIN <= #[trigger] c.r[i as int][l] <= i8::MAX,
                decreases 3 - j,
            {
                let e = row_times_column(other.r, i, self.r, j);
                assert(e == c.r[i as int][j as int]);
                if e < i8::MIN as i64 || e > i8::MAX as i64 {
                    return None;
                }
                j = j + 1;
            }
            i = i + 1;
        }
        Some(self.apply(other))
    }

    /// The transform that applies `self` first and `other` after it: the translation
    /// is `other.r * self.t + other.t` and the rotation `other.r * self.r`.
    /// Computed exactly; the result must fit the fields.
    pub fn apply(self, other: Self) -> (r: Self)
        requires
            fits(compose(self@, other@)),
        ensures
            r@ == compose(self@, other@),
    {
        let c = Ghost(compose(self@, other@));
        assert forall|i: int| 0 <= i < 3 implies #[trigger] c@.t[i] == dot3(
            mat_model(other.r)[i],
            vec_model(self.t),
        ) + other.t[i] by {}
        let t0 = row_times_vec(other.r, 0, self.t) + other.t[0] as i64;
        let t1 = row_times_vec(other.r, 1, self.t) + other.t[1] as i64;
        let t2 = row_times_vec(other.r, 2, self.t) + other.t[2] as i64;
        assert(t0 == c@.t[0] && t1 == c@.t[1] && t2 == c@.t[2]);
        let mut r: [[i8; 3]; 3] = [[0, 0, 0], [0, 0, 0], [0, 0, 0]];
        let mut i: usize = 0;
        while i < 3
            invariant
                i <= 3,
                c@ == compose(self@, other@),
                fits(c@),
                forall|k: int, j: int|
                    0 <= k < i && 0 <= j < 3 ==> r[k][j] as int == #[trigger] c@.r[k][j],
            decreases 3 - i,
        {
            let mut row: [i8; 3] = [0, 0, 0];
            let mut j: usize = 0;
            while j < 3
                invariant
                    i < 3,
                    j <= 3,
                    c@ == compose(self@, other@),
                    fits(c@),
                    forall|l: int| 0 <= l < j ==> row[l] as int == #[trigger] c@.r[i as int][l],
                decreases 3 - j,
            {
                let e = row_times_column(other.r, i, self.r, j);
                assert(e == c@.r[i as int][j as int]);
                row[j] = e as i8;
                j = j + 1;
            }
            r[i] = row;
            i = i + 1;
        }
        let out = Transform { t: [t0 as i32, t1 as i32, t2 as i32], r };
        assert(out@.t =~= c@.t);
        assert(out@.r =~~= c@.r);
        out
    }
}


proof fn lemma_mul_regroup(m: int, n: int, v: int)
    ensures
        m * (n * v) == (m * n) * v,
{
    assert(m * (n * v) == (m * n) * v) by (nonlinear_arith);
}

proof fn lemma_mul_spread(m: int, a: int, b: int, c: int)
    ensures
        m * (a + b + c) == m * a + m * b + m * c,
        (a + b + c) * m == a * m + b * m + c * m,
{
    assert(m * (a + b + c) == m * a + m * b + m * c) by (nonlinear_arith);
    assert((a + b + c) * m == a * m + b * m + c * m) by (nonlinear_arith);
}

proof fn lemma_dot_distributes(u: Seq<int>, v: Seq<int>, w: Seq<int>)
    ensures
        dot3(u, vec_add(v, w)) == dot3(u, v) + dot3(u, w),
{
    assert(u[0] * (v[0] + w[0]) + u[1] * (v[1] + w[1]) + u[2] * (v[2] + w[2]) == (u[0] * v[0]
        + u[1] * v[1] + u[2] * v[2]) + (u[0] * w[0] + u[1] * w[1] + u[2] * w[2]))
        by (nonlinear_arith);
}

/// Row `i` of `m`, applied to `n * v`, is row `i` of `m * n` applied to `v`.
proof fn lemma_dot_mat_vec(m: Seq<Seq<int>>, n: Seq<Seq<int>>, v: Seq<int>, i: int)
    requires
        0 <= i < 3,
    ensures
        dot3(m[i], mat_vec(n, v)) == dot3(mat_mul(m, n)[i], v),
{
    let mi = m[i];
    lemma_mul_spread(mi[0], n[0][0] * v[0], n[0][1] * v[1], n[0][2] * v[2]);
    lemma_mul_spread(mi[1], n[1][0] * v[0], n[1][1] * v[1], n[1][2] * v[2]);
    lemma_mul_spread(mi[2], n[2][0] * v[0], n[2][1] * v[1], n[2][2] * v[2]);
    lemma_mul_spread(v[0], mi[0] * n[0][0], mi[1] * n[1][0], mi[2] * n[2][0]);
    lemma_mul_spread(v[1], mi[0] * n[0][1], mi[1] * n[1][1], mi[2] * n[2][1]);
    lemma_mul_spread(v[2], mi[0] * n[0][2], mi[1] * n[1][2], mi[2] * n[2][2]);
    assert forall|k: int, l: int| 0 <= k < 3 && 0 <= l < 3 implies #[trigger] (mi[k] * (n[k][l]
        * v[l])) == (mi[k] * n[k][l]) * v[l] by {
        lemma_mul_regroup(mi[k], n[k][l], v[l]);
    }
}

proof fn lemma_dot_unit(u: Seq<int>, v: Seq<int>, k: int)
    requires
        0 <= k < 3,
        forall|i: int| 0 <= i < 3 ==> #[trigger] u[i] == if i == k { 1int } else { 0int },
    ensures
        dot3(u, v) == v[k],
{
    let (u0, u1, u2) = (u[0], u[1], u[2]);
    assert(u0 * v[0] == if k == 0 { v[0] } else { 0 }) by (nonlinear_arith)
        requires
            u0 == if k == 0 { 1int } else { 0int },
    ;
    assert(u1 * v[1] == if k == 1 { v[1] } else { 0 }) by (nonlinear_arith)
        requires
            u1 == if k == 1 { 1int } else { 0int },
    ;
    assert(u2 * v[2] == if k == 2 { v[2] } else { 0 }) by (nonlinear_arith)
        requires
            u2 == if k == 2 { 1int } else { 0int },
    ;
}

/// The identity transform is a two-sided unit of composition.
pub proof fn lemma_identity_is_unit(x: Affine)
    requires
        shaped(x),
    ensures
        compose(identity(), x) == x,
        compose(x, identity()) == x,
{
    let id = identity_matrix();
    assert(id[0][0] == 1 && id[0][1] == 0 && id[0][2] == 0);
    assert(id[1][0] == 0 && id[1][1] == 1 && id[1][2] == 0);
    assert(id[2][0] == 0 && id[2][1] == 0 && id[2][2] == 1);
    assert(identity().t[0] == 0 && identity().t[1] == 0 && identity().t[2] == 0);
    let l = compose(identity(), x);
    let r = compose(x, identity());
    assert(l.t =~= x.t);
    assert forall|i: int| 0 <= i < 3 implies #[trigger] l.r[i] =~= x.r[i] by {
        let c0 = column(id, 0);
        let c1 = column(id, 1);
        let c2 = column(id, 2);
        assert(c0[0] == 1 && c0[1] == 0 && c0[2] == 0);
        assert(c1[0] == 0 && c1[1] == 1 && c1[2] == 0);
        assert(c2[0] == 0 && c2[1] == 0 && c2[2] == 1);
        assert(l.r[i][0] == dot3(x.r[i], c0));
        assert(l.r[i][1] == dot3(x.r[i], c1));
        assert(l.r[i][2] == dot3(x.r[i], c2));
    }
    assert(l.r =~= x.r);
    assert forall|i: int| 0 <= i < 3 implies #[trigger] r.t[i] == x.t[i] by {
        assert(r.t[i] == dot3(id[i], x.t) + 0);
        lemma_dot_unit(id[i], x.t, i);
    }
    assert(r.t =~= x.t);
    assert forall|i: int| 0 <= i < 3 implies #[trigger] r.r[i] =~= x.r[i] by {
        assert forall|j: int| 0 <= j < 3 implies #[trigger] r.r[i][j] == x.r[i][j] by {
            let c = column(x.r, j);
            assert(c[0] == x.r[0][j] && c[1] == x.r[1][j] && c[2] == x.r[2][j]);
            assert(r.r[i][j] == dot3(id[i], c));
            lemma_dot_unit(id[i], c, i);
        }
    }
    assert(r.r =~= x.r);
}

/// Composition is associative: composing `a` with `b` and then with `c` is
/// composing `a` with the composition of `b` and `c`.
pub proof fn lemma_compose_associative(a: Affine, b: Affine, c: Affine)
    requires
        shaped(a),
        shaped(b),
        shaped(c),
    ensures
        compose(compose(a, b), c) == compose(a, compose(b, c)),
{
    let l = compose(compose(a, b), c);
    let r = compose(a, compose(b, c));
    assert forall|i: int| 0 <= i < 3 implies #[trigger] l.t[i] == r.t[i] by {
        lemma_dot_distributes(c.r[i], mat_vec(b.r, a.t), b.t);
        lemma_dot_mat_vec(c.r, b.r, a.t, i);
    }
    assert(l.t =~= r.t);
    assert forall|i: int| 0 <= i < 3 implies #[trigger] l.r[i] =~= r.r[i] by {
        assert forall|j: int| 0 <= j < 3 implies #[trigger] l.r[i][j] == r.r[i][j] by {
            lemma_dot_mat_vec(c.r, b.r, column(a.r, j), i);
            assert(mat_vec(b.r, column(a.r, j)) =~= column(mat_mul(b.r, a.r), j));
        }
    }
    assert(l.r =~= r.r);
}

/// The model of a transform has three components and three rows of three.
pub proof fn lemma_view_shaped(t: Transform)
    ensures
        shaped(t@),
{
}

/// Each entry is -1, 0 or 1, and each row holds at most one that is not 0.
pub open spec fn unit_rows(m: Seq<Seq<int>>) -> bool {
    &&& forall|i: int, j: int| 0 <= i < 3 && 0 <= j < 3 ==> -1 <= #[trigger] m[i][j] <= 1
    &&& forall|i: int, j: int, k: int|
        0 <= i < 3 && 0 <= j < 3 && 0 <= k < 3 && j != k ==> #[trigger] m[i][j] == 0
            || #[trigger] m[i][k] == 0
}

/// A rotation of unit rows and a translation of components at most `b` in size.
pub open spec fn bounded(a: Affine, b: int) -> bool {
    &&& shaped(a)
    &&& unit_rows(a.r)
    &&& forall|i: int| 0 <= i < 3 ==> -b <= #[trigger] a.t[i] <= b
}

proof fn lemma_unit_times(u: int, v: int)
    requires
        -1 <= u <= 1,
    ensures
        u * v == if u == 1 {
            v
        } else if u == -1 {
            -v
        } else {
            0
        },
{
    if u == 1 {
        assert(u * v == v) by (nonlinear_arith)
            requires
                u == 1,
        ;
    } else if u == -1 {
        assert(u * v == -v) by (nonlinear_arith)
            requires
                u == -1,
        ;
    } else {
        assert(u * v == 0) by (nonlinear_arith)
            requires
                u == 0,
        ;
    }
}

/// A row with at most one nonzero entry, -1 or 1, picks one entry of `v` up to sign.
proof fn lemma_unit_row_dot(u: Seq<int>, v: Seq<int>)
    requires
        u.len() == 3,
        forall|j: int| 0 <= j < 3 ==> -1 <= #[trigger] u[j] <= 1,
        forall|j: int, k: int| 0 <= j < 3 && 0 <= k < 3 && j != k ==> #[trigger] u[j] == 0 || #[trigger] u[k] == 0,
    ensures
        dot3(u, v) == if u[0] != 0 {
            u[0] * v[0]
        } else if u[1] != 0 {
            u[1] * v[1]
        } else {
            u[2] * v[2]
        },
{
    lemma_unit_times(u[0], v[0]);
    lemma_unit_times(u[1], v[1]);
    lemma_unit_times(u[2], v[2]);
    assert(u[0] == 0 || u[1] == 0);
    assert(u[0] == 0 || u[2] == 0);
    assert(u[1] == 0 || u[2] == 0);
}

/// Composing two transforms of unit rows gives one of unit rows, whose
/// translation is bounded by the sum of the two bounds.
pub proof fn lemma_compose_bounded(a: Affine, b: Affine, ba: int, bb: int)
    requires
        bounded(a, ba),
        bounded(b, bb),
    ensures
        bounded(compose(a, b), ba + bb),
{
    let c = compose(a, b);
    assert forall|i: int| 0 <= i < 3 implies -(ba + bb) <= #[trigger] c.t[i] <= ba + bb by {
        lemma_unit_row_dot(b.r[i], a.t);
        lemma_unit_times(b.r[i][0], a.t[0]);
        lemma_unit_times(b.r[i][1], a.t[1]);
        lemma_unit_times(b.r[i][2], a.t[2]);
    }
    assert forall|i: int, j: int| 0 <= i < 3 && 0 <= j < 3 implies c.r[i][j] == if b.r[i][0] != 0 {
        b.r[i][0] * a.r[0][j]
    } else if b.r[i][1] != 0 {
        b.r[i][1] * a.r[1][j]
    } else {
        b.r[i][2] * a.r[2][j]
    } by {
        lemma_unit_row_dot(b.r[i], column(a.r, j));
    }
    assert forall|i: int, j: int| 0 <= i < 3 && 0 <= j < 3 implies -1 <= #[trigger] c.r[i][j] <= 1 by {
        lemma_unit_times(b.r[i][0], a.r[0][j]);
        lemma_unit_times(b.r[i][1], a.r[1][j]);
        lemma_unit_times(b.r[i][2], a.r[2][j]);
    }
    assert forall|i: int, j: int, k: int|
        0 <= i < 3 && 0 <= j < 3 && 0 <= k < 3 && j != k implies #[trigger] c.r[i][j] == 0
            || #[trigger] c.r[i][k] == 0 by {
        lemma_unit_times(b.r[i][0], a.r[0][j]);
        lemma_unit_times(b.r[i][1], a.r[1][j]);
        lemma_unit_times(b.r[i][2], a.r[2][j]);
        lemma_unit_times(b.r[i][0], a.r[0][k]);
        lemma_unit_times(b.r[i][1], a.r[1][k]);
        lemma_unit_times(b.r[i][2], a.r[2][k]);
        assert(a.r[0][j] == 0 || a.r[0][k] == 0);
        assert(a.r[1][j] == 0 || a.r[1][k] == 0);
        assert(a.r[2][j] == 0 || a.r[2][k] == 0);
    }
}

/// For transforms whose rotations have unit rows (every signed permutation
/// has) and whose translations are at most 1000 in size, all four `apply`
/// steps of `(a then b) then c` and `a then (b then c)` fit the fields, and
/// the two results are equal.
pub proof fn lemma_apply_associative(a: Transform, b: Transform, c: Transform)
    requires
        bounded(a@, 1000),
        bounded(b@, 1000),
        bounded(c@, 1000),
    ensures
        fits(compose(a@, b@)),
        fits(compose(b@, c@)),
        fits(compose(compose(a@, b@), c@)),
        fits(compose(a@, compose(b@, c@))),
        compose(compose(a@, b@), c@) == compose(a@, compose(b@, c@)),
{
    lemma_compose_bounded(a@, b@, 1000, 1000);
    lemma_compose_bounded(b@, c@, 1000, 1000);
    lemma_compose_bounded(compose(a@, b@), c@, 2000, 1000);
    lemma_compose_bounded(a@, compose(b@, c@), 1000, 2000);
    lemma_compose_associative(a@, b@, c@);
}

} // verus!
