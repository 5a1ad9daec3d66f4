//! Square matrices of fixed-point scalars: products with matrices, tuples
//! and scalars, transposes, submatrices, determinants by cofactor
//! expansion, and inverses.
use vstd::prelude::*;
use crate::fixed::{
    checked_product, checked_quotient, checked_sum, div_spec, in_range, mul_spec, product,
    quotient, ONE,
};
use crate::tuple::Tuple;

verus! {

/// A square matrix of fixed-point scalars (see `crate::fixed`), stored row
/// by row.
#[derive(Clone, Debug, PartialEq)]
pub struct Matrix {
    pub data: Vec<Vec<i64>>,
}

impl View for Matrix {
    type V = Seq<Seq<i64>>;

    open spec fn view(&self) -> Seq<Seq<i64>> {
        Seq::new(self.data@.len(), |i: int| self.data@[i]@)
    }
}

/// Whether every row of `m` is as long as `m` has rows.
pub open spec fn is_square(m: Seq<Seq<i64>>) -> bool {
    forall|i: int| 0 <= i < m.len() ==> (#[trigger] m[i]).len() == m.len()
}

/// The `n` by `n` matrix whose entries are all zero.
pub open spec fn zero_spec(n: nat) -> Seq<Seq<i64>> {
    Seq::new(n, |i: int| Seq::new(n, |j: int| 0i64))
}

/// The `n` by `n` identity matrix.
pub open spec fn identity_spec(n: nat) -> Seq<Seq<i64>> {
    Seq::new(
        n,
        |i: int|
            Seq::new(
                n,
                |j: int|
                    if i == j {
                        ONE
                    } else {
                        0i64
                    },
            ),
    )
}

/// The transpose of `m`.
pub open spec fn transpose_spec(m: Seq<Seq<i64>>) -> Seq<Seq<i64>> {
    Seq::new(m.len(), |i: int| Seq::new(m.len(), |j: int| m[j][i]))
}

/// `m` with every entry multiplied by `s`, each product rounded as
/// `crate::fixed::product` rounds it.
pub open spec fn scale_spec(m: Seq<Seq<i64>>, s: i64) -> Seq<Seq<int>> {
    Seq::new(m.len(), |i: int| Seq::new(m.len(), |j: int| mul_spec(m[i][j] as int, s as int)))
}

/// Whether four rounded products and their running sums all fit a raw
/// scalar.
pub open spec fn sum4_fits(p0: int, p1: int, p2: int, p3: int) -> bool {
    &&& in_range(p0)
    &&& in_range(p1)
    &&& in_range(p2)
    &&& in_range(p3)
    &&& in_range(p0 + p1)
    &&& in_range(p0 + p1 + p2)
    &&& in_range(p0 + p1 + p2 + p3)
}

/// The entry at row `r` and column `c` of the product of two 4 by 4
/// matrices: the sum of the rounded products along row `r` of `a` and
/// column `c` of `b`.
pub open spec fn product_entry(a: Seq<Seq<i64>>, b: Seq<Seq<i64>>, r: int, c: int) -> int {
    mul_spec(a[r][0] as int, b[0][c] as int) + mul_spec(a[r][1] as int, b[1][c] as int) + mul_spec(
        a[r][2] as int,
        b[2][c] as int,
    ) + mul_spec(a[r][3] as int, b[3][c] as int)
}

/// Whether every entry of the product of `a` and `b` can be computed
/// without overflow.
pub open spec fn product_fits(a: Seq<Seq<i64>>, b: Seq<Seq<i64>>) -> bool {
    forall|r: int, c: int|
        0 <= r < 4 && 0 <= c < 4 ==> #[trigger] sum4_fits(
            mul_spec(a[r][0] as int, b[0][c] as int),
            mul_spec(a[r][1] as int, b[1][c] as int),
            mul_spec(a[r][2] as int, b[2][c] as int),
            mul_spec(a[r][3] as int, b[3][c] as int),
        )
}

/// The `r`-th component of the product of a 4 by 4 matrix with a tuple.
pub open spec fn tuple_entry(m: Seq<Seq<i64>>, t: Tuple, r: int) -> int {
    mul_spec(m[r][0] as int, t.x as int) + mul_spec(m[r][1] as int, t.y as int) + mul_spec(
        m[r][2] as int,
        t.z as int,
    ) + mul_spec(m[r][3] as int, t.w as int)
}

/// Whether every component of the product of `m` with `t` can be computed
/// without overflow.
pub open spec fn tuple_product_fits(m: Seq<Seq<i64>>, t: Tuple) -> bool {
    forall|r: int|
        0 <= r < 4 ==> #[trigger] sum4_fits(
            mul_spec(m[r][0] as int, t.x as int),
            mul_spec(m[r][1] as int, t.y as int),
            mul_spec(m[r][2] as int, t.z as int),
            mul_spec(m[r][3] as int, t.w as int),
        )
}

/// The product of a 4 by 4 matrix with a tuple.
pub open spec fn tuple_product_spec(m: Seq<Seq<i64>>, t: Tuple) -> Tuple {
    Tuple {
        x: tuple_entry(m, t, 0) as i64,
        y: tuple_entry(m, t, 1) as i64,
        z: tuple_entry(m, t, 2) as i64,
        w: tuple_entry(m, t, 3) as i64,
    }
}

/// `i` when it comes before `k`, else the index after it: the index in the
/// whole matrix of row (or column) `i` of a submatrix without `k`.
pub open spec fn skip_index(i: int, k: int) -> int {
    if i < k {
        i
    } else {
        i + 1
    }
}

/// `m` without row `r` and column `c`.
pub open spec fn sub_spec(m: Seq<Seq<i64>>, r: int, c: int) -> Seq<Seq<i64>> {
    Seq::new(
        (m.len() - 1) as nat,
        |i: int| Seq::new((m.len() - 1) as nat, |j: int| m[skip_index(i, r)][skip_index(j, c)]),
    )
}

/// The determinant by cofactor expansion along the first row, every
/// product rounded as `crate::fixed::product` rounds it. A matrix with
/// fewer than two rows has determinant zero.
pub open spec fn det_spec(m: Seq<Seq<i64>>) -> int
    decreases m.len(), m.len() + 1,
{
    if m.len() == 2 {
        mul_spec(m[0][0] as int, m[1][1] as int) - mul_spec(m[0][1] as int, m[1][0] as int)
    } else if m.len() < 2 {
        0
    } else {
        expansion(m, m.len() as int)
    }
}

/// The sum of the first `k` terms of the cofactor expansion along the first
/// row.
pub open spec fn expansion(m: Seq<Seq<i64>>, k: int) -> int
    decreases m.len(), k,
{
    if k <= 0 {
        0
    } else {
        expansion(m, k - 1) + mul_spec(cofactor_spec(m, 0, k - 1), m[0][k - 1] as int)
    }
}

/// The cofactor of row `r` and column `c`: the determinant of the
/// submatrix, negated when `r + c` is odd.
pub open spec fn cofactor_spec(m: Seq<Seq<i64>>, r: int, c: int) -> int
    decreases m.len(), 0int,
{
    if m.len() == 0 {
        0
    } else {
        let d = det_spec(sub_spec(m, r, c));
        if (r + c) % 2 == 0 {
            d
        } else {
            -d
        }
    }
}

/// Whether the determinant can be computed without overflow.
pub open spec fn det_fits(m: Seq<Seq<i64>>) -> bool
    decreases m.len(), m.len() + 1,
{
    if m.len() == 2 {
        &&& in_range(mul_spec(m[0][0] as int, m[1][1] as int))
        &&& in_range(mul_spec(m[0][1] as int, m[1][0] as int))
        &&& in_range(
            mul_spec(m[0][0] as int, m[1][1] as int) - mul_spec(m[0][1] as int, m[1][0] as int),
        )
    } else if m.len() < 2 {
        true
    } else {
        expansion_fits(m, m.len() as int)
    }
}

/// Whether the first `k` terms of the expansion can be computed without
/// overflow.
pub open spec fn expansion_fits(m: Seq<Seq<i64>>, k: int) -> bool
    decreases m.len(), k,
{
    if k <= 0 {
        true
    } else {
        &&& expansion_fits(m, k - 1)
        &&& cofactor_fits(m, 0, k - 1)
        &&& in_range(mul_spec(cofactor_spec(m, 0, k - 1), m[0][k - 1] as int))
        &&& in_range(expansion(m, k))
    }
}

/// Whether the cofactor of row `r` and column `c` can be computed without
/// overflow.
pub open spec fn cofactor_fits(m: Seq<Seq<i64>>, r: int, c: int) -> bool
    decreases m.len(), 0int,
{
    if m.len() == 0 {
        true
    } else {
        det_fits(sub_spec(m, r, c)) && in_range(cofactor_spec(m, r, c))
    }
}

/// The inverse: the transpose of the matrix of cofactors, each divided by
/// the determinant (rounded as `crate::fixed::quotient` rounds it).
pub open spec fn inverse_spec(m: Seq<Seq<i64>>) -> Seq<Seq<int>> {
    Seq::new(
        m.len(),
        |i: int| Seq::new(m.len(), |j: int| div_spec(cofactor_spec(m, j, i), det_spec(m))),
    )
}

/// The inverse of `m` with its entries stored as raw scalars.
pub open spec fn inverse_matrix_spec(m: Seq<Seq<i64>>) -> Seq<Seq<i64>> {
    Seq::new(m.len(), |i: int| Seq::new(m.len(), |j: int| inverse_spec(m)[i][j] as i64))
}

/// A square matrix whose entries are those of the inverse of `m` is the
/// inverse stored as raw scalars.
pub(crate) proof fn lemma_inverse_view(inv: Seq<Seq<i64>>, m: Seq<Seq<i64>>)
    requires
        is_square(inv),
        inv.len() == m.len(),
        forall|i: int, j: int|
            0 <= i < m.len() && 0 <= j < m.len() ==> #[trigger] inv[i][j] == inverse_spec(m)[i][j],
    ensures
        inv == inverse_matrix_spec(m),
{
    assert forall|i: int| 0 <= i < m.len() implies #[trigger] inv[i] =~= inverse_matrix_spec(m)[i] by {
        assert forall|j: int| 0 <= j < m.len() implies inv[i][j] == inverse_matrix_spec(m)[i][j] by {
            assert(inv[i][j] == inverse_spec(m)[i][j]);
        }
    }
    assert(inv =~= inverse_matrix_spec(m));
}

/// Whether the entry of the inverse made from the cofactor of row `r` and
/// column `c` can be computed without overflow.
pub open spec fn inverse_entry_fits(m: Seq<Seq<i64>>, r: int, c: int) -> bool {
    cofactor_fits(m, r, c) && in_range(div_spec(cofactor_spec(m, r, c), det_spec(m)))
}

/// Whether the inverse can be computed without overflow.
pub open spec fn inverse_fits(m: Seq<Seq<i64>>) -> bool {
    &&& det_fits(m)
    &&& forall|r: int, c: int|
        0 <= r < m.len() && 0 <= c < m.len() ==> #[trigger] inverse_entry_fits(m, r, c)
}

proof fn lemma_expansion_fits_prefix(m: Seq<Seq<i64>>, k: int, j: int)
    requires
        expansion_fits(m, k),
        0 < j <= k,
    ensures
        cofactor_fits(m, 0, j - 1),
        in_range(mul_spec(cofactor_spec(m, 0, j - 1), m[0][j - 1] as int)),
        in_range(expansion(m, j)),
    decreases k - j,
{
    if j < k {
        lemma_expansion_fits_prefix(m, k - 1, j);
    }
}

/// A row of `n` zeros.
fn zero_row(n: usize) -> (v: Vec<i64>)
    ensures
        v@ == Seq::new(n as nat, |j: int| 0i64),
{
    let mut v: Vec<i64> = Vec::new();
    let mut j: usize = 0;
    while j < n
        invariant
            j <= n,
            v@ == Seq::new(j as nat, |k: int| 0i64),
        decreases n - j,
    {
        v.push(0);
        j = j + 1;
        assert(v@ =~= Seq::new(j as nat, |k: int| 0i64));
    }
    v
}

/// The `size` by `size` matrix of zeros.
pub fn build_matrix(size: usize) -> (m: Matrix)
    ensures
        m@ == zero_spec(size as nat),
        is_square(m@),
{
    let mut data: Vec<Vec<i64>> = Vec::new();
    let mut i: usize = 0;
    while i < size
        invariant
            i <= size,
            data@.len() == i,
            forall|k: int| 0 <= k < i ==> (#[trigger] data@[k])@ == Seq::new(size as nat, |j: int| 0i64),
        decreases size - i,
    {
        data.push(zero_row(size));
        i = i + 1;
    }
    let m = Matrix { data };
    assert(m@ =~= zero_spec(size as nat));
    m
}

/// The 4 by 4 identity matrix.
pub fn identity_4x4() -> (m: Matrix)
    ensures
        m@ == identity_spec(4),
{
    let mut data: Vec<Vec<i64>> = Vec::new();
    let mut i: usize = 0;
    while i < 4
        invariant
            i <= 4,
            data@.len() == i,
            forall|k: int| 0 <= k < i ==> (#[trigger] data@[k])@ == identity_spec(4)[k],
        decreases 4 - i,
    {
        let mut row: Vec<i64> = Vec::new();
        let mut j: usize = 0;
        while j < 4
            invariant
                i < 4,
                j <= 4,
                row@.len() == j,
                forall|k: int| 0 <= k < j ==> #[trigger] row@[k] == identity_spec(4)[i as int][k],
            decreases 4 - j,
        {
            if i == j {
                row.push(ONE);
            } else {
                row.push(0);
            }
            j = j + 1;
        }
        assert(row@ =~= identity_spec(4)[i as int]);
        data.push(row);
        i = i + 1;
    }
    let m = Matrix { data };
    assert(m@ =~= identity_spec(4));
    m
}

/// The sum of four rounded products, `a0 * b0 + a1 * b1 + a2 * b2 + a3 * b3`.
fn sum4(a0: i64, b0: i64, a1: i64, b1: i64, a2: i64, b2: i64, a3: i64, b3: i64) -> (s: i64)
    requires
        sum4_fits(
            mul_spec(a0 as int, b0 as int),
            mul_spec(a1 as int, b1 as int),
            mul_spec(a2 as int, b2 as int),
            mul_spec(a3 as int, b3 as int),
        ),
    ensures
        s == mul_spec(a0 as int, b0 as int) + mul_spec(a1 as int, b1 as int) + mul_spec(
            a2 as int,
            b2 as int,
        ) + mul_spec(a3 as int, b3 as int),
{
    let p0 = product(a0, b0);
    let p1 = product(a1, b1);
    let p2 = product(a2, b2);
    let p3 = product(a3, b3);
    p0 + p1 + p2 + p3
}

/// The determinant of the 2 by 2 matrix with top row `a`, `b` and bottom
/// row `c`, `d`: `a * d - b * c`, each product rounded down.
pub fn determinant(a: i64, b: i64, c: i64, d: i64) -> (r: i64)
    requires
        in_range(mul_spec(a as int, d as int)),
        in_range(mul_spec(b as int, c as int)),
        in_range(mul_spec(a as int, d as int) - mul_spec(b as int, c as int)),
    ensures
        r == mul_spec(a as int, d as int) - mul_spec(b as int, c as int),
{
    product(a, d) - product(b, c)
}

impl Matrix {
    /// The `size` by `size` matrix of zeros.
    pub fn new(size: usize) -> (m: Matrix)
        ensures
            m@ == zero_spec(size as nat),
            is_square(m@),
    {
        build_matrix(size)
    }

    /// The number of rows.
    pub fn size(&self) -> (n: usize)
        ensures
            n == self@.len(),
    {
        self.data.len()
    }

    /// The entry at row `r` and column `c`.
    fn at(&self, r: usize, c: usize) -> (v: i64)
        requires
            r < self@.len(),
            c < self@[r as int].len(),
        ensures
            v == self@[r as int][c as int],
    {
        self.data[r][c]
    }

    /// Every entry multiplied by `other` (each product rounded down).
    pub fn scale(&self, other: i64) -> (m: Matrix)
        requires
            is_square(self@),
            forall|i: int, j: int|
                0 <= i < self@.len() && 0 <= j < self@.len() ==> in_range(
                    #[trigger] mul_spec(self@[i][j] as int, other as int),
                ),
        ensures
            is_square(m@),
            m@.len() == self@.len(),
            forall|i: int, j: int|
                0 <= i < self@.len() && 0 <= j < self@.len() ==> #[trigger] m@[i][j] == scale_spec(
                    self@,
                    other,
                )[i][j],
    {
        let n = self.data.len();
        let mut data: Vec<Vec<i64>> = Vec::new();
        let mut r: usize = 0;
        while r < n
            invariant
                n == self@.len(),
                is_square(self@),
                r <= n,
                data@.len() == r,
                forall|i: int, j: int|
                    0 <= i < n && 0 <= j < n ==> in_range(
                        #[trigger] mul_spec(self@[i][j] as int, other as int),
                    ),
                forall|k: int| 0 <= k < r ==> (#[trigger] data@[k])@.len() == n,
                forall|k: int, j: int|
                    0 <= k < r && 0 <= j < n ==> #[trigger] data@[k]@[j] == mul_spec(
                        self@[k][j] as int,
                        other as int,
                    ),
            decreases n - r,
        {
            let mut row: Vec<i64> = Vec::new();
            let mut c: usize = 0;
            while c < n
                invariant
                    n == self@.len(),
                    is_square(self@),
                    r < n,
                    c <= n,
                    row@.len() == c,
                    forall|i: int, j: int|
                        0 <= i < n && 0 <= j < n ==> in_range(
                            #[trigger] mul_spec(self@[i][j] as int, other as int),
                        ),
                    forall|j: int|
                        0 <= j < c ==> #[trigger] row@[j] == mul_spec(
                            self@[r as int][j] as int,
                            other as int,
                        ),
                decreases n - c,
            {
                assert(self@[r as int].len() == n);
                let v = product(self.at(r, c), other);
                row.push(v);
                c = c + 1;
            }
            data.push(row);
            r = r + 1;
        }
        Matrix { data }
    }

    /// The product of two 4 by 4 matrices (see `product_entry`).
    pub fn multiply(&self, other: &Matrix) -> (m: Matrix)
        requires
            self@.len() == 4,
            is_square(self@),
            other@.len() == 4,
            is_square(other@),
            product_fits(self@, other@),
        ensures
            m@.len() == 4,
            is_square(m@),
            forall|r: int, c: int|
                0 <= r < 4 && 0 <= c < 4 ==> #[trigger] m@[r][c] == product_entry(
                    self@,
                    other@,
                    r,
                    c,
                ),
    {
        let mut data: Vec<Vec<i64>> = Vec::new();
        let mut r: usize = 0;
        while r < 4
            invariant
                self@.len() == 4,
                is_square(self@),
                other@.len() == 4,
                is_square(other@),
                product_fits(self@, other@),
                r <= 4,
                data@.len() == r,
                forall|k: int| 0 <= k < r ==> (#[trigger] data@[k])@.len() == 4,
                forall|k: int, c: int|
                    0 <= k < r && 0 <= c < 4 ==> #[trigger] data@[k]@[c] == product_entry(
                        self@,
                        other@,
                        k,
                        c,
                    ),
            decreases 4 - r,
        {
            let mut row: Vec<i64> = Vec::new();
            let mut c: usize = 0;
            while c < 4
                invariant
                    self@.len() == 4,
                    is_square(self@),
                    other@.len() == 4,
                    is_square(other@),
                    product_fits(self@, other@),
                    r < 4,
                    c <= 4,
                    row@.len() == c,
                    forall|j: int|
                        0 <= j < c ==> #[trigger] row@[j] == product_entry(self@, other@, r as int, j),
                decreases 4 - c,
            {
                assert(self@[r as int].len() == 4);
                assert(other@[0].len() == 4 && other@[1].len() == 4 && other@[2].len() == 4
                    && other@[3].len() == 4);
                assert(sum4_fits(
                    mul_spec(self@[r as int][0] as int, other@[0][c as int] as int),
                    mul_spec(self@[r as int][1] as int, other@[1][c as int] as int),
                    mul_spec(self@[r as int][2] as int, other@[2][c as int] as int),
                    mul_spec(self@[r as int][3] as int, other@[3][c as int] as int),
                ));
                let v = sum4(
                    self.at(r, 0),
                    other.at(0, c),
                    self.at(r, 1),
                    other.at(1, c),
                    self.at(r, 2),
                    other.at(2, c),
                    self.at(r, 3),
                    other.at(3, c),
                );
                row.push(v);
                c = c + 1;
            }
            data.push(row);
            r = r + 1;
        }
        let m = Matrix { data };
        assert(m@.len() == 4);
        m
    }

    /// The product of a 4 by 4 matrix with a tuple (see `tuple_entry`).
    pub fn multiply_tuple(&self, other: &Tuple) -> (t: Tuple)
        requires
            self@.len() == 4,
            is_square(self@),
            tuple_product_fits(self@, *other),
        ensures
            t == tuple_product_spec(self@, *other),
    {
        assert(self@[0].len() == 4 && self@[1].len() == 4 && self@[2].len() == 4 && self@[3].len()
            == 4);
        assert(sum4_fits(
            mul_spec(self@[0][0] as int, other.x as int),
            mul_spec(self@[0][1] as int, other.y as int),
            mul_spec(self@[0][2] as int, other.z as int),
            mul_spec(self@[0][3] as int, other.w as int),
        ));
        assert(sum4_fits(
            mul_spec(self@[1][0] as int, other.x as int),
            mul_spec(self@[1][1] as int, other.y as int),
            mul_spec(self@[1][2] as int, other.z as int),
            mul_spec(self@[1][3] as int, other.w as int),
        ));
        assert(sum4_fits(
            mul_spec(self@[2][0] as int, other.x as int),
            mul_spec(self@[2][1] as int, other.y as int),
            mul_spec(self@[2][2] as int, other.z as int),
            mul_spec(self@[2][3] as int, other.w as int),
        ));
        assert(sum4_fits(
            mul_spec(self@[3][0] as int, other.x as int),
            mul_spec(self@[3][1] as int, other.y as int),
            mul_spec(self@[3][2] as int, other.z as int),
            mul_spec(self@[3][3] as int, other.w as int),
        ));
        let x = sum4(
            self.at(0, 0),
            other.x,
            self.at(0, 1),
            other.y,
            self.at(0, 2),
            other.z,
            self.at(0, 3),
            other.w,
        );
        let y = sum4(
            self.at(1, 0),
            other.x,
            self.at(1, 1),
            other.y,
            self.at(1, 2),
            other.z,
            self.at(1, 3),
            other.w,
        );
        let z = sum4(
            self.at(2, 0),
            other.x,
            self.at(2, 1),
            other.y,
            self.at(2, 2),
            other.z,
            self.at(2, 3),
            other.w,
        );
        let w = sum4(
            self.at(3, 0),
            other.x,
            self.at(3, 1),
            other.y,
            self.at(3, 2),
            other.z,
            self.at(3, 3),
            other.w,
        );
        Tuple { x, y, z, w }
    }

    /// The transpose.
    pub fn transpose(&self) -> (m: Matrix)
        requires
            is_square(self@),
        ensures
            m@ == transpose_spec(self@),
    {
        let n = self.data.len();
        let mut data: Vec<Vec<i64>> = Vec::new();
        let mut r: usize = 0;
        while r < n
            invariant
                n == self@.len(),
                is_square(self@),
                r <= n,
                data@.len() == r,
                forall|k: int| 0 <= k < r ==> (#[trigger] data@[k])@ == transpose_spec(self@)[k],
            decreases n - r,
        {
            let mut row: Vec<i64> = Vec::new();
            let mut c: usize = 0;
            while c < n
                invariant
                    n == self@.len(),
                    is_square(self@),
                    r < n,
                    c <= n,
                    row@.len() == c,
                    forall|j: int| 0 <= j < c ==> #[trigger] row@[j] == self@[j][r as int],
                decreases n - c,
            {
                assert(self@[c as int].len() == n);
                row.push(self.at(c, r));
                c = c + 1;
            }
            assert(row@ =~= transpose_spec(self@)[r as int]);
            data.push(row);
            r = r + 1;
        }
        let m = Matrix { data };
        assert(m@ =~= transpose_spec(self@));
        m
    }

    /// The matrix without row `remove_row` and column `remove_col`.
    pub fn submatrix(&self, remove_row: usize, remove_col: usize) -> (m: Matrix)
        requires
            is_square(self@),
            remove_row < self@.len(),
            remove_col < self@.len(),
        ensures
            m@ == sub_spec(self@, remove_row as int, remove_col as int),
            is_square(m@),
    {
        let n = self.data.len();
        let ghost s = sub_spec(self@, remove_row as int, remove_col as int);
        let mut data: Vec<Vec<i64>> = Vec::new();
        let mut r: usize = 0;
        while r < n - 1
            invariant
                n == self@.len(),
                n >= 1,
                is_square(self@),
                remove_row < n,
                remove_col < n,
                s == sub_spec(self@, remove_row as int, remove_col as int),
                r <= n - 1,
                data@.len() == r,
                forall|k: int| 0 <= k < r ==> (#[trigger] data@[k])@ == s[k],
            decreases n - 1 - r,
        {
            let old_row = if r < remove_row {
                r
            } else {
                r + 1
            };
            assert(self@[old_row as int].len() == n);
            let mut row: Vec<i64> = Vec::new();
            let mut c: usize = 0;
            while c < n - 1
                invariant
                    n == self@.len(),
                    n >= 1,
                    is_square(self@),
                    remove_col < n,
                    old_row < n,
                    old_row == skip_index(r as int, remove_row as int),
                    r < n - 1,
                    c <= n - 1,
                    row@.len() == c,
                    forall|j: int|
                        0 <= j < c ==> #[trigger] row@[j] == self@[old_row as int][skip_index(
                            j,
                            remove_col as int,
                        )],
                decreases n - 1 - c,
            {
                let old_col = if c < remove_col {
                    c
                } else {
                    c + 1
                };
                row.push(self.at(old_row, old_col));
                c = c + 1;
            }
            assert(row@ =~= s[r as int]);
            data.push(row);
            r = r + 1;
        }
        let m = Matrix { data };
        assert(m@ =~= s);
        m
    }

    /// The determinant (see `det_spec`).
    pub fn determinant(&self) -> (d: i64)
        requires
            is_square(self@),
            det_fits(self@),
        ensures
            d == det_spec(self@),
        decreases self@.len(), 2int,
    {
        let n = self.data.len();
        if n == 2 {
            assert(self@[0].len() == 2 && self@[1].len() == 2);
            return determinant(self.at(0, 0), self.at(0, 1), self.at(1, 0), self.at(1, 1));
        }
        if n < 2 {
            return 0;
        }
        assert(self@[0].len() == n);
        let mut det: i64 = 0;
        let mut col: usize = 0;
        while col < n
            invariant
                n == self@.len(),
                n > 2,
                is_square(self@),
                expansion_fits(self@, n as int),
                col <= n,
                det == expansion(self@, col as int),
            decreases n - col,
        {
            proof {
                lemma_expansion_fits_prefix(self@, n as int, col + 1);
            }
            assert(self@[0].len() == n);
            let c = self.cofactor(0, col);
            let p = product(c, self.at(0, col));
            det = det + p;
            col = col + 1;
        }
        det
    }

    /// The cofactor of row `row` and column `column` (see
    /// `cofactor_spec`).
    pub fn cofactor(&self, row: usize, column: usize) -> (c: i64)
        requires
            is_square(self@),
            row < self@.len(),
            column < self@.len(),
            cofactor_fits(self@, row as int, column as int),
        ensures
            c == cofactor_spec(self@, row as int, column as int),
        decreases self@.len(), 1int,
    {
        let minor = self.minor(row, column);
        if (row % 2 + column % 2) % 2 == 0 {
            minor
        } else {
            -minor
        }
    }

    /// The determinant of the submatrix without row `row` and column
    /// `column`.
    pub fn minor(&self, row: usize, column: usize) -> (d: i64)
        requires
            is_square(self@),
            row < self@.len(),
            column < self@.len(),
            cofactor_fits(self@, row as int, column as int),
        ensures
            d == det_spec(sub_spec(self@, row as int, column as int)),
        decreases self@.len(), 0int,
    {
        let sub = self.submatrix(row, column);
        sub.determinant()
    }

    /// Whether the determinant is not zero.
    pub fn invertible(&self) -> (b: bool)
        requires
            is_square(self@),
            det_fits(self@),
        ensures
            b == (det_spec(self@) != 0),
    {
        self.determinant() != 0
    }

    /// The inverse (see `inverse_spec`).
    pub fn inverse(&self) -> (m: Matrix)
        requires
            is_square(self@),
            inverse_fits(self@),
            det_spec(self@) != 0,
        ensures
            is_square(m@),
            m@.len() == self@.len(),
            forall|i: int, j: int|
                0 <= i < self@.len() && 0 <= j < self@.len() ==> #[trigger] m@[i][j]
                    == inverse_spec(self@)[i][j],
    {
        let n = self.data.len();
        let det = self.determinant();
        let mut data: Vec<Vec<i64>> = Vec::new();
        let mut i: usize = 0;
        while i < n
            invariant
                n == self@.len(),
                is_square(self@),
                inverse_fits(self@),
                det == det_spec(self@),
                det != 0,
                i <= n,
                data@.len() == i,
                forall|k: int| 0 <= k < i ==> (#[trigger] data@[k])@.len() == n,
                forall|k: int, j: int|
                    0 <= k < i && 0 <= j < n ==> #[trigger] data@[k]@[j] == inverse_spec(
                        self@,
                    )[k][j],
            decreases n - i,
        {
            let mut row: Vec<i64> = Vec::new();
            let mut j: usize = 0;
            while j < n
                invariant
                    n == self@.len(),
                    is_square(self@),
                    inverse_fits(self@),
                    det == det_spec(self@),
                    det != 0,
                    i < n,
                    j <= n,
                    row@.len() == j,
                    forall|k: int|
                        0 <= k < j ==> #[trigger] row@[k] == inverse_spec(self@)[i as int][k],
                decreases n - j,
            {
                assert(inverse_entry_fits(self@, j as int, i as int));
                let c = self.cofactor(j, i);
                let q = quotient(c, det);
                row.push(q);
                j = j + 1;
            }
            data.push(row);
            i = i + 1;
        }
        Matrix { data }
    }
}

proof fn lemma_mul_by_one_and_zero(a: int)
    ensures
        mul_spec(a, ONE as int) == a,
        mul_spec(ONE as int, a) == a,
        mul_spec(a, 0) == 0,
        mul_spec(0, a) == 0,
{
    vstd::arithmetic::div_mod::lemma_div_multiples_vanish(a, ONE as int);
    assert(a * ONE == ONE * a) by (nonlinear_arith);
    assert(a * 0 == 0 && 0 * a == 0) by (nonlinear_arith);
}

/// The identity matrix is a unit of the product on both sides, and the
/// products with it never overflow.
pub proof fn lemma_identity_product(m: Seq<Seq<i64>>)
    requires
        m.len() == 4,
        is_square(m),
    ensures
        product_fits(m, identity_spec(4)),
        product_fits(identity_spec(4), m),
        forall|r: int, c: int|
            0 <= r < 4 && 0 <= c < 4 ==> #[trigger] product_entry(m, identity_spec(4), r, c)
                == m[r][c] && product_entry(identity_spec(4), m, r, c) == m[r][c],
{
    let id = identity_spec(4);
    assert forall|r: int, c: int| 0 <= r < 4 && 0 <= c < 4 implies #[trigger] sum4_fits(
        mul_spec(m[r][0] as int, id[0][c] as int),
        mul_spec(m[r][1] as int, id[1][c] as int),
        mul_spec(m[r][2] as int, id[2][c] as int),
        mul_spec(m[r][3] as int, id[3][c] as int),
    ) && sum4_fits(
        mul_spec(id[r][0] as int, m[0][c] as int),
        mul_spec(id[r][1] as int, m[1][c] as int),
        mul_spec(id[r][2] as int, m[2][c] as int),
        mul_spec(id[r][3] as int, m[3][c] as int),
    ) by {
        assert(m[r].len() == 4);
        lemma_mul_by_one_and_zero(m[r][0] as int);
        lemma_mul_by_one_and_zero(m[r][1] as int);
        lemma_mul_by_one_and_zero(m[r][2] as int);
        lemma_mul_by_one_and_zero(m[r][3] as int);
        lemma_mul_by_one_and_zero(m[0][c] as int);
        lemma_mul_by_one_and_zero(m[1][c] as int);
        lemma_mul_by_one_and_zero(m[2][c] as int);
        lemma_mul_by_one_and_zero(m[3][c] as int);
    }
    assert forall|r: int, c: int| 0 <= r < 4 && 0 <= c < 4 implies #[trigger] product_entry(
        m,
        id,
        r,
        c,
    ) == m[r][c] && product_entry(id, m, r, c) == m[r][c] by {
        assert(m[r].len() == 4);
        lemma_mul_by_one_and_zero(m[r][0] as int);
        lemma_mul_by_one_and_zero(m[r][1] as int);
        lemma_mul_by_one_and_zero(m[r][2] as int);
        lemma_mul_by_one_and_zero(m[r][3] as int);
        lemma_mul_by_one_and_zero(m[0][c] as int);
        lemma_mul_by_one_and_zero(m[1][c] as int);
        lemma_mul_by_one_and_zero(m[2][c] as int);
        lemma_mul_by_one_and_zero(m[3][c] as int);
    }
}

/// Multiplying a tuple by the identity matrix gives the tuple back, without
/// overflow.
pub proof fn lemma_identity_tuple(t: Tuple)
    ensures
        tuple_product_fits(identity_spec(4), t),
        tuple_product_spec(identity_spec(4), t) == t,
{
    lemma_mul_by_one_and_zero(t.x as int);
    lemma_mul_by_one_and_zero(t.y as int);
    lemma_mul_by_one_and_zero(t.z as int);
    lemma_mul_by_one_and_zero(t.w as int);
    let id = identity_spec(4);
    assert forall|r: int| 0 <= r < 4 implies #[trigger] sum4_fits(
        mul_spec(id[r][0] as int, t.x as int),
        mul_spec(id[r][1] as int, t.y as int),
        mul_spec(id[r][2] as int, t.z as int),
        mul_spec(id[r][3] as int, t.w as int),
    ) by {}
}

/// Transposing twice gives the matrix back, and the identity is its own
/// transpose.
pub proof fn lemma_transpose_involution(m: Seq<Seq<i64>>, n: nat)
    requires
        is_square(m),
    ensures
        transpose_spec(transpose_spec(m)) == m,
        transpose_spec(identity_spec(n)) == identity_spec(n),
{
    assert forall|i: int| 0 <= i < m.len() implies #[trigger] transpose_spec(transpose_spec(m))[i]
        == m[i] by {
        assert(m[i].len() == m.len());
        assert(transpose_spec(transpose_spec(m))[i] =~= m[i]);
    }
    assert(transpose_spec(transpose_spec(m)) =~= m);
    assert forall|i: int| 0 <= i < n implies #[trigger] transpose_spec(identity_spec(n))[i]
        == identity_spec(n)[i] by {
        assert(transpose_spec(identity_spec(n))[i] =~= identity_spec(n)[i]);
    }
    assert(transpose_spec(identity_spec(n)) =~= identity_spec(n));
}

/// Scaling by one keeps every entry.
pub proof fn lemma_scale_by_one(m: Seq<Seq<i64>>)
    requires
        is_square(m),
    ensures
        forall|i: int, j: int|
            0 <= i < m.len() && 0 <= j < m.len() ==> #[trigger] scale_spec(m, ONE)[i][j]
                == m[i][j],
{
    assert forall|i: int, j: int| 0 <= i < m.len() && 0 <= j < m.len() implies #[trigger] scale_spec(
        m,
        ONE,
    )[i][j] == m[i][j] by {
        lemma_mul_by_one_and_zero(m[i][j] as int);
    }
}

/// The sum of four rounded products (see `sum4`), or `None` when a product
/// or a running sum does not fit.
fn checked_sum4(a0: i64, b0: i64, a1: i64, b1: i64, a2: i64, b2: i64, a3: i64, b3: i64) -> (r:
    Option<i64>)
    ensures
        r is Some <==> sum4_fits(
            mul_spec(a0 as int, b0 as int),
            mul_spec(a1 as int, b1 as int),
            mul_spec(a2 as int, b2 as int),
            mul_spec(a3 as int, b3 as int),
        ),
        r matches Some(s) ==> s == mul_spec(a0 as int, b0 as int) + mul_spec(a1 as int, b1 as int)
            + mul_spec(a2 as int, b2 as int) + mul_spec(a3 as int, b3 as int),
{
    let p0 = checked_product(a0, b0)?;
    let p1 = checked_product(a1, b1)?;
    let p2 = checked_product(a2, b2)?;
    let p3 = checked_product(a3, b3)?;
    let s1 = checked_sum(p0, p1)?;
    let s2 = checked_sum(s1, p2)?;
    checked_sum(s2, p3)
}

impl Matrix {
    /// Whether every row is as long as the matrix has rows.
    pub fn is_square_matrix(&self) -> (b: bool)
        ensures
            b == is_square(self@),
    {
        let n = self.data.len();
        let mut i: usize = 0;
        while i < n
            invariant
                n == self@.len(),
                i <= n,
                forall|k: int| 0 <= k < i ==> (#[trigger] self@[k]).len() == n,
            decreases n - i,
        {
            assert(self@[i as int] == self.data@[i as int]@);
            if self.data[i].len() != n {
                return false;
            }
            i = i + 1;
        }
        true
    }

    /// The product with a tuple (see `multiply_tuple`), or `None` when the
    /// matrix is not 4 by 4 or a component would overflow.
    pub fn try_multiply_tuple(&self, other: &Tuple) -> (r: Option<Tuple>)
        ensures
            r is Some <==> (self@.len() == 4 && is_square(self@) && tuple_product_fits(
                self@,
                *other,
            )),
            r matches Some(t) ==> t == tuple_product_spec(self@, *other),
    {
        if self.data.len() != 4 || !self.is_square_matrix() {
            return None;
        }
        assert(self@[0].len() == 4 && self@[1].len() == 4 && self@[2].len() == 4 && self@[3].len()
            == 4);
        let mut comps: Vec<i64> = Vec::new();
        let mut r: usize = 0;
        while r < 4
            invariant
                self@.len() == 4,
                is_square(self@),
                r <= 4,
                comps@.len() == r,
                forall|k: int| 0 <= k < r ==> #[trigger] comps@[k] == tuple_entry(self@, *other, k),
                forall|k: int|
                    0 <= k < r ==> #[trigger] sum4_fits(
                        mul_spec(self@[k][0] as int, other.x as int),
                        mul_spec(self@[k][1] as int, other.y as int),
                        mul_spec(self@[k][2] as int, other.z as int),
                        mul_spec(self@[k][3] as int, other.w as int),
                    ),
            decreases 4 - r,
        {
            assert(self@[r as int].len() == 4);
            match checked_sum4(
                self.at(r, 0),
                other.x,
                self.at(r, 1),
                other.y,
                self.at(r, 2),
                other.z,
                self.at(r, 3),
                other.w,
            ) {
                Some(v) => {
                    comps.push(v);
                },
                None => {
                    return None;
                },
            }
            r = r + 1;
        }
        Some(Tuple { x: comps[0], y: comps[1], z: comps[2], w: comps[3] })
    }

    /// The product of two 4 by 4 matrices (see `multiply`), or `None` when
    /// either is not 4 by 4 or an entry would overflow.
    pub fn try_multiply(&self, other: &Matrix) -> (r: Option<Matrix>)
        ensures
            r is Some <==> (self@.len() == 4 && is_square(self@) && other@.len() == 4 && is_square(
                other@,
            ) && product_fits(self@, other@)),
            r matches Some(m) ==> m@.len() == 4 && is_square(m@) && forall|i: int, j: int|
                0 <= i < 4 && 0 <= j < 4 ==> #[trigger] m@[i][j] == product_entry(
                    self@,
                    other@,
                    i,
                    j,
                ),
    {
        if self.data.len() != 4 || !self.is_square_matrix() || other.data.len() != 4
            || !other.is_square_matrix() {
            return None;
        }
        let mut r: usize = 0;
        while r < 4
            invariant
                self@.len() == 4,
                is_square(self@),
                other@.len() == 4,
                is_square(other@),
                r <= 4,
                forall|i: int, j: int|
                    0 <= i < r && 0 <= j < 4 ==> #[trigger] sum4_fits(
                        mul_spec(self@[i][0] as int, other@[0][j] as int),
                        mul_spec(self@[i][1] as int, other@[1][j] as int),
                        mul_spec(self@[i][2] as int, other@[2][j] as int),
                        mul_spec(self@[i][3] as int, other@[3][j] as int),
                    ),
            decreases 4 - r,
        {
            let mut c: usize = 0;
            while c < 4
                invariant
                    self@.len() == 4,
                    is_square(self@),
                    other@.len() == 4,
                    is_square(other@),
                    r < 4,
                    c <= 4,
                    forall|i: int, j: int|
                        0 <= i < r && 0 <= j < 4 ==> #[trigger] sum4_fits(
                            mul_spec(self@[i][0] as int, other@[0][j] as int),
                            mul_spec(self@[i][1] as int, other@[1][j] as int),
                            mul_spec(self@[i][2] as int, other@[2][j] as int),
                            mul_spec(self@[i][3] as int, other@[3][j] as int),
                        ),
                    forall|j: int|
                        0 <= j < c ==> #[trigger] sum4_fits(
                            mul_spec(self@[r as int][0] as int, other@[0][j] as int),
                            mul_spec(self@[r as int][1] as int, other@[1][j] as int),
                            mul_spec(self@[r as int][2] as int, other@[2][j] as int),
                            mul_spec(self@[r as int][3] as int, other@[3][j] as int),
                        ),
                decreases 4 - c,
            {
                assert(self@[r as int].len() == 4);
                assert(other@[0].len() == 4 && other@[1].len() == 4 && other@[2].len() == 4
                    && other@[3].len() == 4);
                if checked_sum4(
                    self.at(r, 0),
                    other.at(0, c),
                    self.at(r, 1),
                    other.at(1, c),
                    self.at(r, 2),
                    other.at(2, c),
                    self.at(r, 3),
                    other.at(3, c),
                ).is_none() {
                    return None;
                }
                c = c + 1;
            }
            r = r + 1;
        }
        Some(self.multiply(other))
    }

    /// The determinant (see `determinant`), or `None` when a step would
    /// overflow.
    pub fn try_determinant(&self) -> (r: Option<i64>)
        requires
            is_square(self@),
        ensures
            r is Some <==> det_fits(self@),
            r matches Some(d) ==> d == det_spec(self@),
        decreases self@.len(), 2int,
    {
        let n = self.data.len();
        if n == 2 {
            assert(self@[0].len() == 2 && self@[1].len() == 2);
            let a = checked_product(self.at(0, 0), self.at(1, 1))?;
            let b = checked_product(self.at(0, 1), self.at(1, 0))?;
            let d = (a as i128) - (b as i128);
            if i64::MIN as i128 <= d && d <= i64::MAX as i128 {
                return Some(d as i64);
            } else {
                return None;
            }
        }
        if n < 2 {
            return Some(0);
        }
        assert(self@[0].len() == n);
        let mut det: i64 = 0;
        let mut col: usize = 0;
        while col < n
            invariant
                n == self@.len(),
                n > 2,
                is_square(self@),
                col <= n,
                expansion_fits(self@, col as int),
                det == expansion(self@, col as int),
            decreases n - col,
        {
            assert(self@[0].len() == n);
            let c = match self.try_cofactor(0, col) {
                Some(c) => c,
                None => {
                    proof {
                        if det_fits(self@) {
                            lemma_expansion_fits_prefix(self@, n as int, col + 1);
                        }
                    }
                    return None;
                },
            };
            let p = match checked_product(c, self.at(0, col)) {
                Some(p) => p,
                None => {
                    proof {
                        if det_fits(self@) {
                            lemma_expansion_fits_prefix(self@, n as int, col + 1);
                        }
                    }
                    return None;
                },
            };
            det = match checked_sum(det, p) {
                Some(d) => d,
                None => {
                    proof {
                        if det_fits(self@) {
                            lemma_expansion_fits_prefix(self@, n as int, col + 1);
                        }
                    }
                    return None;
                },
            };
            col = col + 1;
        }
        Some(det)
    }

    /// The cofactor (see `cofactor`), or `None` when a step would overflow.
    pub fn try_cofactor(&self, row: usize, column: usize) -> (r: Option<i64>)
        requires
            is_square(self@),
            row < self@.len(),
            column < self@.len(),
        ensures
            r is Some <==> cofactor_fits(self@, row as int, column as int),
            r matches Some(c) ==> c == cofactor_spec(self@, row as int, column as int),
        decreases self@.len(), 1int,
    {
        let sub = self.submatrix(row, column);
        let minor = sub.try_determinant()?;
        if (row % 2 + column % 2) % 2 == 0 {
            Some(minor)
        } else if minor == i64::MIN {
            None
        } else {
            Some(-minor)
        }
    }

    /// The inverse (see `inverse`), or `None` when the matrix is not
    /// square, its determinant is zero, or a step would overflow.
    pub fn try_inverse(&self) -> (r: Option<Matrix>)
        ensures
            r is Some <==> (is_square(self@) && inverse_fits(self@) && det_spec(self@) != 0),
            r matches Some(m) ==> is_square(m@) && m@.len() == self@.len() && forall|i: int, j: int|
                0 <= i < self@.len() && 0 <= j < self@.len() ==> #[trigger] m@[i][j]
                    == inverse_spec(self@)[i][j],
    {
        if !self.is_square_matrix() {
            return None;
        }
        let det = match self.try_determinant() {
            Some(d) => d,
            None => {
                return None;
            },
        };
        if det == 0 {
            return None;
        }
        let n = self.data.len();
        let mut r: usize = 0;
        while r < n
            invariant
                n == self@.len(),
                is_square(self@),
                det_fits(self@),
                det == det_spec(self@),
                det != 0,
                r <= n,
                forall|i: int, j: int|
                    0 <= i < r && 0 <= j < n ==> #[trigger] inverse_entry_fits(self@, i, j),
            decreases n - r,
        {
            let mut c: usize = 0;
            while c < n
                invariant
                    n == self@.len(),
                    is_square(self@),
                    det == det_spec(self@),
                    det != 0,
                    r < n,
                    c <= n,
                    forall|i: int, j: int|
                        0 <= i < r && 0 <= j < n ==> #[trigger] inverse_entry_fits(self@, i, j),
                    forall|j: int| 0 <= j < c ==> #[trigger] inverse_entry_fits(self@, r as int, j),
                decreases n - c,
            {
                let cf = match self.try_cofactor(r, c) {
                    Some(v) => v,
                    None => {
                        assert(!inverse_entry_fits(self@, r as int, c as int));
                        return None;
                    },
                };
                if checked_quotient(cf, det).is_none() {
                    assert(!inverse_entry_fits(self@, r as int, c as int));
                    return None;
                }
                c = c + 1;
            }
            r = r + 1;
        }
        Some(self.inverse())
    }
}

} // verus!
