//! Matrices and vectors over Z/QZ.

use vstd::prelude::*;
use vstd::arithmetic::div_mod::{lemma_add_mod_noop_right, lemma_fundamental_div_mod_converse};
use crate::params::{grid, Matrix, ProtocolError, Vector, Q};

verus! {

pub open spec fn rows<T>(m: Seq<Seq<T>>) -> nat {
    m.len()
}

/// Length of the first row; 0 for a matrix without rows.
pub open spec fn cols<T>(m: Seq<Seq<T>>) -> nat {
    if m.len() == 0 {
        0
    } else {
        m[0].len()
    }
}

pub open spec fn rectangular<T>(m: Seq<Seq<T>>) -> bool {
    forall|i: int| 0 <= i < m.len() ==> (#[trigger] m[i]).len() == cols(m)
}

pub open spec fn transpose_spec<T>(m: Seq<Seq<T>>) -> Seq<Seq<T>> {
    Seq::new(cols(m), |j: int| Seq::new(rows(m), |i: int| m[i][j]))
}

pub open spec fn identity_spec(dim: nat) -> Seq<Seq<u64>> {
    Seq::new(dim, |i: int| Seq::new(dim, |j: int| if i == j { 1u64 } else { 0u64 }))
}

/// Both factors are rectangular and have at least one row and one column.
pub open spec fn kron_defined(a: Seq<Seq<u64>>, b: Seq<Seq<u64>>) -> bool {
    &&& rectangular(a)
    &&& rectangular(b)
    &&& rows(a) > 0
    &&& cols(a) > 0
    &&& rows(b) > 0
    &&& cols(b) > 0
}

/// Both dimensions of the product can be indexed on this machine.
pub open spec fn kron_fits(a: Seq<Seq<u64>>, b: Seq<Seq<u64>>) -> bool {
    &&& rows(a) * rows(b) <= usize::MAX
    &&& cols(a) * cols(b) <= usize::MAX
}

pub open spec fn mul_mod_spec(x: u64, y: u64) -> u64 {
    ((x as int * y as int) % (Q as int)) as u64
}

/// Entry `(r, c)` of the Kronecker product: with `r = i * rows(b) + k` and
/// `c = j * cols(b) + l` it is `a[i][j] * b[k][l] mod Q`.
pub open spec fn kron_entry(a: Seq<Seq<u64>>, b: Seq<Seq<u64>>, r: int, c: int) -> u64 {
    mul_mod_spec(
        a[r / rows(b) as int][c / cols(b) as int],
        b[r % rows(b) as int][c % cols(b) as int],
    )
}

pub open spec fn kron_row(a: Seq<Seq<u64>>, b: Seq<Seq<u64>>, r: int) -> Seq<u64> {
    Seq::new(cols(a) * cols(b), |c: int| kron_entry(a, b, r, c))
}

pub open spec fn kron_spec(a: Seq<Seq<u64>>, b: Seq<Seq<u64>>) -> Seq<Seq<u64>> {
    Seq::new(rows(a) * rows(b), |r: int| kron_row(a, b, r))
}

/// Sum of `row[j] * v[j]` over `j < n`, before reduction.
pub open spec fn dot(row: Seq<u64>, v: Seq<u64>, n: nat) -> int
    decreases n,
{
    if n == 0 {
        0
    } else {
        dot(row, v, (n - 1) as nat) + row[n - 1] as int * v[n - 1] as int
    }
}

pub open spec fn dot_mod(row: Seq<u64>, v: Seq<u64>) -> u64 {
    (dot(row, v, v.len()) % (Q as int)) as u64
}

pub open spec fn mat_vec_spec(m: Seq<Seq<u64>>, v: Seq<u64>) -> Seq<u64> {
    Seq::new(m.len(), |i: int| dot_mod(m[i], v))
}

/// Every entry reduced modulo `Q`.
pub open spec fn reduce(f: Seq<u64>) -> Seq<u64> {
    Seq::new(f.len(), |i: int| (f[i] % Q) as u64)
}

/// What applying `a (x) b` to `v` gives: the product where the shapes fit,
/// and the error where they do not.
pub open spec fn kron_apply_spec(a: Seq<Seq<u64>>, b: Seq<Seq<u64>>, v: Seq<u64>) -> Result<
    Seq<u64>,
    ProtocolError,
> {
    if kron_defined(a, b) && rows(a) * rows(b) <= usize::MAX && v.len() == cols(a) * cols(b) {
        Ok(mat_vec_spec(kron_spec(a, b), v))
    } else {
        Err(ProtocolError::DimensionMismatch)
    }
}

/// `x * y mod Q`, through a product of double width where one is needed.
pub fn mul_mod(x: u64, y: u64) -> (r: u64)
    ensures
        r == mul_mod_spec(x, y),
        r < Q,
{
    if x <= 0xffff_ffff && y <= 0xffff_ffff {
        assert(x as int * y as int <= 0xffff_ffff * 0xffff_ffff) by (nonlinear_arith)
            requires
                x <= 0xffff_ffff,
                y <= 0xffff_ffff,
        ;
        (x * y) % Q
    } else {
        assert(x as int * y as int <= 0xffff_ffff_ffff_ffff * 0xffff_ffff_ffff_ffff)
            by (nonlinear_arith)
            requires
                x <= 0xffff_ffff_ffff_ffff,
                y <= 0xffff_ffff_ffff_ffff,
        ;
        let wide: u128 = (x as u128) * (y as u128);
        (wide % (Q as u128)) as u64
    }
}

/// `(acc + x * y) mod Q`.
fn mul_add_mod(acc: u64, x: u64, y: u64) -> (r: u64)
    requires
        acc < Q,
    ensures
        r as int == (acc as int + x as int * y as int) % (Q as int),
        r < Q,
{
    let p: u64 = mul_mod(x, y);
    proof {
        lemma_add_mod_noop_right(acc as int, x as int * y as int, Q as int);
    }
    (acc + p) % Q
}

pub(crate) proof fn lemma_block_index(i: int, k: int, d: int)
    requires
        0 <= k < d,
        0 <= i,
    ensures
        (i * d + k) / d == i,
        (i * d + k) % d == k,
{
    lemma_fundamental_div_mod_converse(i * d + k, d, i, k);
}

/// The Kronecker product of a `p` by `q` matrix `a` and an `r` by `s` matrix
/// `b` has `p * r` rows of `q * s` entries, and its entry at row `i * r + k`
/// and column `j * s + l` is `a[i][j] * b[k][l] mod Q`.
pub proof fn kron_shape_law(a: Seq<Seq<u64>>, b: Seq<Seq<u64>>, i: int, j: int, k: int, l: int)
    requires
        rectangular(a),
        rectangular(b),
        0 <= i < rows(a),
        0 <= j < cols(a),
        0 <= k < rows(b),
        0 <= l < cols(b),
    ensures
        rows(kron_spec(a, b)) == rows(a) * rows(b),
        cols(kron_spec(a, b)) == cols(a) * cols(b),
        rectangular(kron_spec(a, b)),
        0 <= i * rows(b) + k < rows(a) * rows(b),
        0 <= j * cols(b) + l < cols(a) * cols(b),
        kron_spec(a, b)[i * rows(b) + k][j * cols(b) + l] == (a[i][j] as int * b[k][l] as int) % (
        Q as int),
{
    let br = rows(b) as int;
    let bc = cols(b) as int;
    lemma_block_index(i, k, br);
    lemma_block_index(j, l, bc);
    assert(0 <= i * br + k < rows(a) * br) by (nonlinear_arith)
        requires
            0 <= i < rows(a),
            0 <= k < br,
    ;
    assert(0 <= j * bc + l < cols(a) * bc) by (nonlinear_arith)
        requires
            0 <= j < cols(a),
            0 <= l < bc,
    ;
    assert(0 <= (a[i][j] as int * b[k][l] as int) % (Q as int) < Q) by (nonlinear_arith)
        requires
            Q == 563,
    ;
    assert(kron_spec(a, b)[i * br + k] == kron_row(a, b, i * br + k));
    assert(kron_spec(a, b)[0] == kron_row(a, b, 0));
}

/// Whether every row is as long as the first.
pub fn is_rectangular<T>(m: &[Vec<T>]) -> (ok: bool)
    ensures
        ok == rectangular(grid(m@)),
{
    if m.len() == 0 {
        return true;
    }
    let width: usize = m[0].len();
    let mut i: usize = 0;
    while i < m.len()
        invariant
            i <= m.len(),
            m.len() > 0,
            width == m@[0]@.len(),
            forall|p: int| 0 <= p < i ==> (#[trigger] grid(m@)[p]).len() == width,
        decreases m.len() - i,
    {
        if m[i].len() != width {
            assert(grid(m@)[i as int].len() != cols(grid(m@)));
            return false;
        }
        i += 1;
    }
    true
}

/// The transpose of a rectangular matrix; a ragged one is refused.
pub fn transpose<T: Copy>(m: &[Vec<T>]) -> (res: Result<Vec<Vec<T>>, ProtocolError>)
    ensures
        match res {
            Ok(t) => rectangular(grid(m@)) && grid(t@) == transpose_spec(grid(m@)),
            Err(e) => e == ProtocolError::DimensionMismatch && !rectangular(grid(m@)),
        },
{
    if !is_rectangular(m) {
        return Err(ProtocolError::DimensionMismatch);
    }
    let mut t: Vec<Vec<T>> = Vec::new();
    if m.len() == 0 {
        assert(grid(t@) =~= transpose_spec(grid(m@)));
        return Ok(t);
    }
    let width: usize = m[0].len();
    let mut j: usize = 0;
    while j < width
        invariant
            j <= width,
            m.len() > 0,
            width == cols(grid(m@)),
            rectangular(grid(m@)),
            t@.len() == j,
            forall|q: int| 0 <= q < j ==> (#[trigger] t@[q])@ == transpose_spec(grid(m@))[q],
        decreases width - j,
    {
        let mut col: Vec<T> = Vec::new();
        let mut i: usize = 0;
        while i < m.len()
            invariant
                i <= m.len(),
                j < width,
                width == cols(grid(m@)),
                rectangular(grid(m@)),
                col@.len() == i,
                forall|p: int| 0 <= p < i ==> #[trigger] col@[p] == m@[p]@[j as int],
            decreases m.len() - i,
        {
            assert(grid(m@)[i as int].len() == width);
            col.push(m[i][j]);
            i += 1;
        }
        assert(col@ =~= transpose_spec(grid(m@))[j as int]);
        t.push(col);
        j += 1;
    }
    assert(grid(t@) =~= transpose_spec(grid(m@)));
    Ok(t)
}

/// The `dim` by `dim` matrix with 1 on the diagonal and 0 elsewhere.
pub fn identity(dim: usize) -> (m: Matrix)
    ensures
        grid(m@) == identity_spec(dim as nat),
{
    let mut m: Matrix = Vec::new();
    let mut i: usize = 0;
    while i < dim
        invariant
            i <= dim,
            m@.len() == i,
            forall|p: int| 0 <= p < i ==> (#[trigger] m@[p])@ == identity_spec(dim as nat)[p],
        decreases dim - i,
    {
        let mut row: Vector = Vec::new();
        let mut j: usize = 0;
        while j < dim
            invariant
                j <= dim,
                i < dim,
                row@.len() == j,
                forall|q: int| 0 <= q < j ==> #[trigger] row@[q] == (if i == q { 1u64 } else { 0u64 }),
            decreases dim - j,
        {
            row.push(if i == j { 1 } else { 0 });
            j += 1;
        }
        assert(row@ =~= identity_spec(dim as nat)[i as int]);
        m.push(row);
        i += 1;
    }
    assert(grid(m@) =~= identity_spec(dim as nat));
    m
}

/// Whether both factors of a Kronecker product are usable and the product can
/// be indexed; the two dimensions of the product where they are.
fn kron_shape(a: &Matrix, b: &Matrix) -> (res: Option<(usize, usize)>)
    ensures
        match res {
            Some((nr, nc)) => kron_defined(grid(a@), grid(b@)) && nr == rows(grid(a@)) * rows(
                grid(b@),
            ) && nc == cols(grid(a@)) * cols(grid(b@)),
            None => !(kron_defined(grid(a@), grid(b@)) && kron_fits(grid(a@), grid(b@))),
        },
{
    if a.len() == 0 || b.len() == 0 {
        return None;
    }
    if a[0].len() == 0 || b[0].len() == 0 {
        return None;
    }
    if !is_rectangular(a.as_slice()) || !is_rectangular(b.as_slice()) {
        return None;
    }
    match (a.len().checked_mul(b.len()), a[0].len().checked_mul(b[0].len())) {
        (Some(nr), Some(nc)) => Some((nr, nc)),
        _ => None,
    }
}

/// One row of the Kronecker product: row `k` of `b` scaled by each entry of
/// row `i` of `a` in turn.
fn kron_row_of(a: &Matrix, b: &Matrix, i: usize, k: usize) -> (row: Vector)
    requires
        kron_defined(grid(a@), grid(b@)),
        kron_fits(grid(a@), grid(b@)),
        i < a@.len(),
        k < b@.len(),
    ensures
        row@ == kron_row(grid(a@), grid(b@), i * b@.len() + k),
{
    let ghost ga = grid(a@);
    let ghost gb = grid(b@);
    let ghost r: int = i * b@.len() + k;
    let ac: usize = a[0].len();
    let bc: usize = b[0].len();
    proof {
        lemma_block_index(i as int, k as int, b@.len() as int);
        assert(ga[i as int].len() == ac);
        assert(gb[k as int].len() == bc);
    }
    let mut row: Vector = Vec::new();
    let mut j: usize = 0;
    while j < ac
        invariant
            j <= ac,
            ga == grid(a@),
            gb == grid(b@),
            ac == cols(ga),
            bc == cols(gb),
            bc > 0,
            i < a@.len(),
            k < b@.len(),
            a@[i as int]@.len() == ac,
            b@[k as int]@.len() == bc,
            r / (rows(gb) as int) == i,
            r % (rows(gb) as int) == k,
            row@.len() == j * bc,
            forall|c: int| 0 <= c < row@.len() ==> #[trigger] row@[c] == kron_entry(ga, gb, r, c),
        decreases ac - j,
    {
        let x: u64 = a[i][j];
        let mut l: usize = 0;
        while l < bc
            invariant
                l <= bc,
                j < ac,
                ga == grid(a@),
                gb == grid(b@),
                ac == cols(ga),
                bc == cols(gb),
                i < a@.len(),
                k < b@.len(),
                a@[i as int]@.len() == ac,
                b@[k as int]@.len() == bc,
                x == a@[i as int]@[j as int],
                r / (rows(gb) as int) == i,
                r % (rows(gb) as int) == k,
                row@.len() == j * bc + l,
                forall|c: int|
                    0 <= c < row@.len() ==> #[trigger] row@[c] == kron_entry(ga, gb, r, c),
            decreases bc - l,
        {
            proof {
                lemma_block_index(j as int, l as int, bc as int);
            }
            row.push(mul_mod(x, b[k][l]));
            l += 1;
        }
        proof {
            assert(j * bc + bc == (j + 1) * bc) by (nonlinear_arith);
        }
        j += 1;
    }
    assert(row@ =~= kron_row(ga, gb, r));
    row
}

/// The Kronecker product of `a` and `b`, reduced modulo `Q`; refused where a
/// factor is ragged or has no row or no column, or where the product is too
/// large to index.
pub fn kron(a: &Matrix, b: &Matrix) -> (res: Result<Matrix, ProtocolError>)
    ensures
        match res {
            Ok(m) => kron_defined(grid(a@), grid(b@)) && kron_fits(grid(a@), grid(b@)) && grid(m@)
                == kron_spec(grid(a@), grid(b@)),
            Err(e) => e == ProtocolError::DimensionMismatch && !(kron_defined(grid(a@), grid(b@))
                && kron_fits(grid(a@), grid(b@))),
        },
{
    if kron_shape(a, b).is_none() {
        return Err(ProtocolError::DimensionMismatch);
    }
    let ghost ga = grid(a@);
    let ghost gb = grid(b@);
    let ar: usize = a.len();
    let br: usize = b.len();
    let mut out: Matrix = Vec::new();
    let mut i: usize = 0;
    while i < ar
        invariant
            i <= ar,
            ar == a@.len(),
            br == b@.len(),
            ga == grid(a@),
            gb == grid(b@),
            kron_defined(ga, gb),
            kron_fits(ga, gb),
            out@.len() == i * br,
            forall|r: int| 0 <= r < out@.len() ==> (#[trigger] out@[r])@ == kron_row(ga, gb, r),
        decreases ar - i,
    {
        let mut k: usize = 0;
        while k < br
            invariant
                k <= br,
                i < ar,
                ar == a@.len(),
                br == b@.len(),
                ga == grid(a@),
                gb == grid(b@),
                kron_defined(ga, gb),
                kron_fits(ga, gb),
                out@.len() == i * br + k,
                forall|r: int|
                    0 <= r < out@.len() ==> (#[trigger] out@[r])@ == kron_row(ga, gb, r),
            decreases br - k,
        {
            let row = kron_row_of(a, b, i, k);
            out.push(row);
            k += 1;
        }
        proof {
            assert(i * br + br == (i + 1) * br) by (nonlinear_arith);
        }
        i += 1;
    }
    assert(grid(out@) =~= kron_spec(ga, gb));
    Ok(out)
}

/// `row . v mod Q`, reducing after every step.
fn dot_row(row: &Vector, v: &Vector) -> (acc: u64)
    requires
        row@.len() == v@.len(),
    ensures
        acc == dot_mod(row@, v@),
        acc < Q,
{
    let mut acc: u64 = 0;
    let mut j: usize = 0;
    while j < v.len()
        invariant
            j <= v@.len(),
            row@.len() == v@.len(),
            acc < Q,
            acc as int == dot(row@, v@, j as nat) % (Q as int),
        decreases v.len() - j,
    {
        proof {
            lemma_add_mod_noop_right(
                row@[j as int] as int * v@[j as int] as int,
                dot(row@, v@, j as nat),
                Q as int,
            );
        }
        acc = mul_add_mod(acc, row[j], v[j]);
        j += 1;
    }
    acc
}

/// The product `m * v` modulo `Q`; refused where `m` is ragged or `v` is not
/// as long as the rows of `m`.
pub fn mat_vec(m: &Matrix, v: &Vector) -> (res: Result<Vector, ProtocolError>)
    ensures
        match res {
            Ok(w) => rectangular(grid(m@)) && v@.len() == cols(grid(m@)) && w@ == mat_vec_spec(
                grid(m@),
                v@,
            ),
            Err(e) => e == ProtocolError::DimensionMismatch && !(rectangular(grid(m@)) && v@.len()
                == cols(grid(m@))),
        },
{
    if !is_rectangular(m.as_slice()) {
        return Err(ProtocolError::DimensionMismatch);
    }
    let width: usize = if m.len() == 0 { 0 } else { m[0].len() };
    if v.len() != width {
        return Err(ProtocolError::DimensionMismatch);
    }
    let mut out: Vector = Vec::new();
    let mut i: usize = 0;
    while i < m.len()
        invariant
            i <= m@.len(),
            rectangular(grid(m@)),
            v@.len() == cols(grid(m@)),
            out@.len() == i,
            forall|p: int| 0 <= p < i ==> #[trigger] out@[p] == dot_mod(grid(m@)[p], v@),
        decreases m.len() - i,
    {
        assert(grid(m@)[i as int].len() == v@.len());
        let x: u64 = dot_row(&m[i], v);
        out.push(x);
        i += 1;
    }
    assert(out@ =~= mat_vec_spec(grid(m@), v@));
    Ok(out)
}

/// A result with its vector taken as a sequence.
pub open spec fn vec_result(res: Result<Vector, ProtocolError>) -> Result<Seq<u64>, ProtocolError> {
    match res {
        Ok(w) => Ok(w@),
        Err(e) => Err(e),
    }
}

pub(crate) proof fn lemma_zero_product(y: u64)
    ensures
        mul_mod_spec(0, y) == 0,
        mul_mod_spec(y, 0) == 0,
{
    assert(0 * (y as int) == 0 && (y as int) * 0 == 0) by (nonlinear_arith);
}

/// Entries of `row` that are 0 add nothing to the sum.
pub(crate) proof fn lemma_dot_skips_zeros(row: Seq<u64>, v: Seq<u64>, n: nat, m: nat)
    requires
        forall|c: int| n <= c < n + m ==> #[trigger] row[c] == 0,
    ensures
        dot(row, v, n + m) == dot(row, v, n),
    decreases m,
{
    if m > 0 {
        lemma_dot_skips_zeros(row, v, n, (m - 1) as nat);
        assert(row[n + m - 1] == 0);
        assert(0 * (v[n + m - 1] as int) == 0) by (nonlinear_arith);
    }
}

/// Entry `i * rows(b) + k` of `(a (x) b) * v`, without building the product.
fn kron_dot(a: &Matrix, b: &Matrix, i: usize, k: usize, v: &Vector) -> (acc: u64)
    requires
        kron_defined(grid(a@), grid(b@)),
        v@.len() == cols(grid(a@)) * cols(grid(b@)),
        i < a@.len(),
        k < b@.len(),
    ensures
        acc == dot_mod(kron_row(grid(a@), grid(b@), i * b@.len() + k), v@),
{
    let ghost ga = grid(a@);
    let ghost gb = grid(b@);
    let ghost r: int = i * b@.len() + k;
    let ac: usize = a[0].len();
    let bc: usize = b[0].len();
    proof {
        lemma_block_index(i as int, k as int, b@.len() as int);
        assert(ga[i as int].len() == ac);
        assert(gb[k as int].len() == bc);
    }
    let total: usize = v.len();
    let mut acc: u64 = 0;
    let mut c: usize = 0;
    let mut j: usize = 0;
    while j < ac
        invariant
            j <= ac,
            total == v@.len(),
            ga == grid(a@),
            gb == grid(b@),
            ac == cols(ga),
            bc == cols(gb),
            bc > 0,
            v@.len() == ac * bc,
            i < a@.len(),
            k < b@.len(),
            a@[i as int]@.len() == ac,
            b@[k as int]@.len() == bc,
            r / (rows(gb) as int) == i,
            r % (rows(gb) as int) == k,
            c == j * bc,
            acc < Q,
            acc as int == dot(kron_row(ga, gb, r), v@, c as nat) % (Q as int),
        decreases ac - j,
    {
        let x: u64 = a[i][j];
        proof {
            assert(j * bc + bc <= ac * bc) by (nonlinear_arith)
                requires
                    j < ac,
                    bc > 0,
            ;
            assert(j * bc + bc == (j + 1) * bc) by (nonlinear_arith);
        }
        if x == 0 {
            proof {
                let row = kron_row(ga, gb, r);
                assert forall|p: int| c <= p < c + bc implies #[trigger] row[p] == 0 by {
                    lemma_block_index(j as int, p - c, bc as int);
                    lemma_zero_product(gb[k as int][p - c]);
                }
                lemma_dot_skips_zeros(row, v@, c as nat, bc as nat);
            }
            c += bc;
        } else {
            let mut l: usize = 0;
            while l < bc
                invariant
                    l <= bc,
                    j < ac,
                    total == v@.len(),
                    ga == grid(a@),
                    gb == grid(b@),
                    ac == cols(ga),
                    bc == cols(gb),
                    v@.len() == ac * bc,
                    j * bc + bc <= ac * bc,
                    i < a@.len(),
                    k < b@.len(),
                    a@[i as int]@.len() == ac,
                    b@[k as int]@.len() == bc,
                    x == a@[i as int]@[j as int],
                    r / (rows(gb) as int) == i,
                    r % (rows(gb) as int) == k,
                    c == j * bc + l,
                    acc < Q,
                    acc as int == dot(kron_row(ga, gb, r), v@, c as nat) % (Q as int),
                decreases bc - l,
            {
                let y: u64 = b[k][l];
                let ghost row = kron_row(ga, gb, r);
                proof {
                    lemma_block_index(j as int, l as int, bc as int);
                    assert(row[c as int] == mul_mod_spec(x, y));
                    assert(dot(row, v@, (c + 1) as nat) == dot(row, v@, c as nat) + row[c as int] as int
                        * v@[c as int] as int);
                }
                if y == 0 {
                    proof {
                        lemma_zero_product(x);
                        assert(row[c as int] as int * v@[c as int] as int == 0) by (nonlinear_arith)
                            requires
                                row[c as int] == 0,
                        ;
                    }
                } else {
                    let e: u64 = mul_mod(x, y);
                    proof {
                        lemma_add_mod_noop_right(
                            e as int * v@[c as int] as int,
                            dot(row, v@, c as nat),
                            Q as int,
                        );
                    }
                    acc = mul_add_mod(acc, e, v[c]);
                }
                c += 1;
                l += 1;
            }
        }
        j += 1;
    }
    acc
}

/// `(a (x) b) * v` modulo `Q`, computed entry by entry without holding the
/// product in memory. Refused where `kron` refuses the factors, where `v` is
/// not as long as the product is wide, or where the result is too long to index.
pub fn kron_apply(a: &Matrix, b: &Matrix, v: &Vector) -> (res: Result<Vector, ProtocolError>)
    ensures
        vec_result(res) == kron_apply_spec(grid(a@), grid(b@), v@),
{
    let ghost ga = grid(a@);
    let ghost gb = grid(b@);
    let shape = kron_shape(a, b);
    let total: usize = v.len();
    if shape.is_none() {
        return Err(ProtocolError::DimensionMismatch);
    }
    let (nr, nc) = shape.unwrap();
    if total != nc {
        return Err(ProtocolError::DimensionMismatch);
    }
    let ar: usize = a.len();
    let br: usize = b.len();
    let mut out: Vector = Vec::new();
    let mut i: usize = 0;
    while i < ar
        invariant
            i <= ar,
            ar == a@.len(),
            br == b@.len(),
            ga == grid(a@),
            gb == grid(b@),
            kron_defined(ga, gb),
            v@.len() == cols(ga) * cols(gb),
            out@.len() == i * br,
            forall|r: int| 0 <= r < out@.len() ==> #[trigger] out@[r] == dot_mod(kron_row(ga, gb, r), v@),
        decreases ar - i,
    {
        let mut k: usize = 0;
        while k < br
            invariant
                k <= br,
                i < ar,
                ar == a@.len(),
                br == b@.len(),
                ga == grid(a@),
                gb == grid(b@),
                kron_defined(ga, gb),
                v@.len() == cols(ga) * cols(gb),
                out@.len() == i * br + k,
                forall|r: int|
                    0 <= r < out@.len() ==> #[trigger] out@[r] == dot_mod(kron_row(ga, gb, r), v@),
            decreases br - k,
        {
            let x: u64 = kron_dot(a, b, i, k, v);
            out.push(x);
            k += 1;
        }
        proof {
            assert(i * br + br == (i + 1) * br) by (nonlinear_arith);
        }
        i += 1;
    }
    assert(out@ =~= mat_vec_spec(kron_spec(ga, gb), v@));
    Ok(out)
}

/// A copy of `v`.
pub fn copy_vector(v: &Vector) -> (w: Vector)
    ensures
        w@ == v@,
{
    let mut w: Vector = Vec::new();
    let mut i: usize = 0;
    while i < v.len()
        invariant
            i <= v@.len(),
            w@ == v@.subrange(0, i as int),
        decreases v.len() - i,
    {
        w.push(v[i]);
        assert(w@ =~= v@.subrange(0, i + 1));
        i += 1;
    }
    assert(w@ =~= v@);
    w
}

/// A copy of `m`.
pub fn copy_matrix(m: &Matrix) -> (w: Matrix)
    ensures
        grid(w@) == grid(m@),
{
    let mut w: Matrix = Vec::new();
    let mut i: usize = 0;
    while i < m.len()
        invariant
            i <= m@.len(),
            w@.len() == i,
            forall|p: int| 0 <= p < i ==> (#[trigger] w@[p])@ == m@[p]@,
        decreases m.len() - i,
    {
        w.push(copy_vector(&m[i]));
        i += 1;
    }
    assert(grid(w@) =~= grid(m@));
    w
}

} // verus!
