//! Matrix products, attention and depthwise convolution: which blocks of the
//! operands go together, and where the results go. The products and sums
//! themselves are functions that the caller hands in.
use vstd::prelude::*;
use vstd::string::*;

use crate::error::Error;
use crate::slices::{copy_all, copy_range, extend_range, same_sizes};
use crate::tensor::cpu::CpuTensor;
use crate::tensor::cpu_ops::is_kernel_result;
use crate::tensor::shape::{
    checked_num_elements, fits, lemma_size_one, lemma_size_three, lemma_size_two,
    plain_num_elements, size, too_large_text,
};
use crate::text::{decimal, list_text, push_decimal, push_list};

verus! {

/// A product of two matrices that stand in larger arrays: `rows` by `inner`
/// elements from `lhs_offset` on, times `inner` by `cols` elements from
/// `rhs_offset` on.
#[derive(Debug, Clone, Copy, PartialEq, Eq, Structural)]
pub struct Product {
    pub lhs_offset: usize,
    pub rhs_offset: usize,
    pub rows: usize,
    pub inner: usize,
    pub cols: usize,
}

/// The block lies within both operands, and its result can be held.
pub open spec fn lies_within(p: Product, lhs: int, rhs: int) -> bool {
    &&& p.lhs_offset + p.rows * p.inner <= lhs
    &&& p.rhs_offset + p.inner * p.cols <= rhs
    &&& p.rows * p.cols <= usize::MAX
}

pub open spec fn least(a: int, b: int) -> int {
    if a <= b {
        a
    } else {
        b
    }
}

/// The product for the rows from `s` on of matrix `b` of a stack of `m` by `k`
/// matrices, times matrix `b` of a stack of `k` by `n` matrices, with at most
/// `chunk` rows at a time.
pub open spec fn block_at(b: int, s: int, m: int, k: int, n: int, chunk: int) -> Product {
    Product {
        lhs_offset: ((b * m + s) * k) as usize,
        rhs_offset: (b * (k * n)) as usize,
        rows: least(chunk, m - s) as usize,
        inner: k as usize,
        cols: n as usize,
    }
}

/// The rows from `s` on of matrix `b` of the result are what `product` can give
/// on the block.
pub open spec fn is_block<T, P: Fn(&Vec<T>, &Vec<T>, Product) -> Vec<T>>(
    product: P,
    lhs: Vec<T>,
    rhs: Vec<T>,
    b: int,
    s: int,
    m: int,
    k: int,
    n: int,
    chunk: int,
    out: Seq<T>,
) -> bool {
    let block = block_at(b, s, m, k, n, chunk);
    exists|v: Vec<T>| #[trigger]
        call_ensures(product, (&lhs, &rhs, block), v) && out.subrange(
            (b * m + s) * n,
            (b * m + s + block.rows) * n,
        ) == v@
}

/// `out` holds the products of all matrices of two stacks, computed in chunks of
/// rows that begin at multiples of `chunk`.
pub open spec fn is_chunked_product<T, P: Fn(&Vec<T>, &Vec<T>, Product) -> Vec<T>>(
    product: P,
    lhs: Vec<T>,
    rhs: Vec<T>,
    batch: int,
    m: int,
    k: int,
    n: int,
    chunk: int,
    out: Seq<T>,
) -> bool {
    &&& out.len() == batch * m * n
    &&& out.len() > 0 ==> forall|b: int, s: int|
        0 <= b < batch && 0 <= s < m && s % chunk == 0 ==> #[trigger] is_block(
            product,
            lhs,
            rhs,
            b,
            s,
            m,
            k,
            n,
            chunk,
            out,
        )
}

proof fn lemma_block_extends<T, P: Fn(&Vec<T>, &Vec<T>, Product) -> Vec<T>>(
    product: P,
    lhs: Vec<T>,
    rhs: Vec<T>,
    b: int,
    s: int,
    m: int,
    k: int,
    n: int,
    chunk: int,
    out: Seq<T>,
    longer: Seq<T>,
)
    requires
        is_block(product, lhs, rhs, b, s, m, k, n, chunk, out),
        0 <= b,
        0 <= s < m,
        0 <= n,
        1 <= chunk,
        m <= usize::MAX,
        (b * m + s + least(chunk, m - s)) * n <= out.len(),
        out.len() <= longer.len(),
        forall|i: int| 0 <= i < out.len() ==> longer[i] == out[i],
    ensures
        is_block(product, lhs, rhs, b, s, m, k, n, chunk, longer),
{
    let block = block_at(b, s, m, k, n, chunk);
    let v = choose|v: Vec<T>| #[trigger]
        call_ensures(product, (&lhs, &rhs, block), v) && out.subrange(
            (b * m + s) * n,
            (b * m + s + block.rows) * n,
        ) == v@;
    let from = (b * m + s) * n;
    let to = (b * m + s + block.rows) * n;
    assert(0 <= from <= to) by (nonlinear_arith)
        requires
            from == (b * m + s) * n,
            to == (b * m + s + block.rows) * n,
            0 <= b,
            0 <= m,
            0 <= s,
            0 <= n,
            0 <= block.rows,
    ;
    assert(longer.subrange(from, to) =~= out.subrange(from, to));
    assert(call_ensures(product, (&lhs, &rhs, block), v));
}

/// Computes the products of two stacks of matrices in chunks of rows.
fn chunked_product<T: Copy, P: Fn(&Vec<T>, &Vec<T>, Product) -> Vec<T>>(
    lhs: &Vec<T>,
    rhs: &Vec<T>,
    batch: usize,
    m: usize,
    k: usize,
    n: usize,
    total: usize,
    chunk: usize,
    product: &P,
) -> (out: Vec<T>)
    requires
        lhs.len() == batch * m * k,
        rhs.len() == batch * (k * n),
        total == batch * m * n,
        chunk >= 1,
        forall|p: Product|
            lies_within(p, lhs.len() as int, rhs.len() as int) ==> call_requires(
                *product,
                (lhs, rhs, p),
            ),
        forall|p: Product, v: Vec<T>|
            call_ensures(*product, (lhs, rhs, p), v) ==> v.len() == p.rows * p.cols,
    ensures
        is_chunked_product(
            *product,
            *lhs,
            *rhs,
            batch as int,
            m as int,
            k as int,
            n as int,
            chunk as int,
            out@,
        ),
{
    let ghost (bi, mi, ki, ni, ci) = (
        batch as int,
        m as int,
        k as int,
        n as int,
        chunk as int,
    );
    let mut out: Vec<T> = Vec::new();
    if total == 0 {
        return out;
    }
    proof {
        assert(bi * mi <= bi * mi * ni && bi > 0 && mi > 0 && ni > 0) by (nonlinear_arith)
            requires
                0 < bi * mi * ni,
                bi >= 0,
                mi >= 0,
                ni >= 0,
        ;
    }
    let mut b: usize = 0;
    assert((b * mi + 0) * ni == 0) by (nonlinear_arith)
        requires
            b == 0,
    ;
    while b < batch
        invariant
            b <= batch,
            bi == batch,
            mi == m,
            ki == k,
            ni == n,
            ci == chunk,
            chunk >= 1,
            lhs.len() == bi * mi * ki,
            rhs.len() == bi * (ki * ni),
            bi * mi * ni <= usize::MAX,
            bi * mi <= usize::MAX,
            forall|p: Product|
                lies_within(p, lhs.len() as int, rhs.len() as int) ==> call_requires(
                    *product,
                    (lhs, rhs, p),
                ),
            forall|p: Product, v: Vec<T>|
                call_ensures(*product, (lhs, rhs, p), v) ==> v.len() == p.rows * p.cols,
            out.len() == (b * mi + 0) * ni,
            forall|c: int, s: int|
                0 <= c < b && 0 <= s < mi && s % ci == 0 ==> #[trigger] is_block(
                    *product,
                    *lhs,
                    *rhs,
                    c,
                    s,
                    mi,
                    ki,
                    ni,
                    ci,
                    out@,
                ),
        decreases batch - b,
    {
        let mut s: usize = 0;
        while s < m
            invariant
                b < batch,
                s <= m,
                bi == batch,
                mi == m,
                ki == k,
                ni == n,
                ci == chunk,
                chunk >= 1,
                lhs.len() == bi * mi * ki,
                rhs.len() == bi * (ki * ni),
                bi * mi * ni <= usize::MAX,
                bi * mi <= usize::MAX,
                s < m ==> s as int % ci == 0,
                forall|p: Product|
                    lies_within(p, lhs.len() as int, rhs.len() as int) ==> call_requires(
                        *product,
                        (lhs, rhs, p),
                    ),
                forall|p: Product, v: Vec<T>|
                    call_ensures(*product, (lhs, rhs, p), v) ==> v.len() == p.rows * p.cols,
                out.len() == (b * mi + s) * ni,
                forall|c: int, u: int|
                    ((0 <= c < b && 0 <= u < mi) || (c == b && 0 <= u < s)) && u % ci == 0
                        ==> #[trigger] is_block(
                        *product,
                        *lhs,
                        *rhs,
                        c,
                        u,
                        mi,
                        ki,
                        ni,
                        ci,
                        out@,
                    ),
            decreases m - s,
        {
            let rows: usize = if m - s > chunk {
                chunk
            } else {
                m - s
            };
            proof {
                lemma_block_bounds(
                    b as int,
                    s as int,
                    rows as int,
                    bi,
                    mi,
                    ki,
                    ni,
                );
            }
            let block = Product {
                lhs_offset: (b * m + s) * k,
                rhs_offset: b * (k * n),
                rows,
                inner: k,
                cols: n,
            };
            assert(block == block_at(b as int, s as int, mi, ki, ni, ci));
            assert(block.lhs_offset + block.rows * block.inner <= lhs.len());
            assert(lies_within(block, lhs.len() as int, rhs.len() as int));
            let values: Vec<T> = product(lhs, rhs, block);
            let ghost earlier = out@;
            extend_range(&mut out, &values, 0, values.len());
            proof {
                assert(values@.subrange(0, values.len() as int) =~= values@);
                let row = b * mi + s;
                assert((row + rows) * ni == row * ni + rows * ni) by (nonlinear_arith);
                assert(out@.subrange(row * ni, (row + rows) * ni) =~= values@);
                assert(call_ensures(*product, (lhs, rhs, block), values));
                assert(is_block(
                    *product,
                    *lhs,
                    *rhs,
                    b as int,
                    s as int,
                    mi,
                    ki,
                    ni,
                    ci,
                    out@,
                ));
                let next = s + rows;
                assert forall|c: int, u: int|
                    ((0 <= c < b && 0 <= u < mi) || (c == b && 0 <= u < next)) && u % ci
                        == 0 implies #[trigger] is_block(
                    *product,
                    *lhs,
                    *rhs,
                    c,
                    u,
                    mi,
                    ki,
                    ni,
                    ci,
                    out@,
                ) by {
                    if c == b && s < u {
                        lemma_chunk_ends_by(s as int, u, ci);
                    }
                    if c < b || u < s {
                        if c == b {
                            lemma_chunk_ends_by(u, s as int, ci);
                        }
                        let r = least(ci, mi - u);
                        assert(c * mi + u + r <= row && 0 <= c * mi + u) by (nonlinear_arith)
                            requires
                                row == b * mi + s,
                                (0 <= c && c + 1 <= b && u + r <= mi) || (c == b && u + r <= s),
                                0 <= c,
                                0 <= u,
                                0 <= mi,
                                0 <= s,
                        ;
                        assert((c * mi + u + r) * ni <= row * ni) by (nonlinear_arith)
                            requires
                                c * mi + u + r <= row,
                                ni >= 0,
                        ;
                        lemma_block_extends(
                            *product,
                            *lhs,
                            *rhs,
                            c,
                            u,
                            mi,
                            ki,
                            ni,
                            ci,
                            earlier,
                            out@,
                        );
                    }
                }
                if next < mi {
                    assert(next == s + ci);
                    vstd::arithmetic::div_mod::lemma_mod_add_multiples_vanish(s as int, ci);
                }
            }
            s = s + rows;
        }
        assert((b * mi + mi) * ni == ((b + 1) * mi + 0) * ni) by (nonlinear_arith);
        b += 1;
    }
    assert((bi * mi + 0) * ni == bi * mi * ni) by (nonlinear_arith);
    out
}

proof fn lemma_chunk_ends_by(u: int, s: int, chunk: int)
    requires
        chunk >= 1,
        0 <= u < s,
        u % chunk == 0,
        s % chunk == 0,
    ensures
        u + chunk <= s,
{
    vstd::arithmetic::div_mod::lemma_fundamental_div_mod(s, chunk);
    vstd::arithmetic::div_mod::lemma_fundamental_div_mod(u, chunk);
    let a = s / chunk;
    let b = u / chunk;
    assert(u + chunk <= s) by (nonlinear_arith)
        requires
            s == chunk * a + 0,
            u == chunk * b + 0,
            u < s,
            chunk >= 1,
    ;
}

proof fn lemma_block_bounds(b: int, s: int, rows: int, batch: int, m: int, k: int, n: int)
    requires
        0 <= b < batch,
        0 <= s,
        0 <= rows,
        s + rows <= m,
        0 <= k,
        0 <= n,
    ensures
        0 <= b * m,
        b * m + s + rows <= batch * m,
        0 <= (b * m + s) * k,
        (b * m + s) * k + rows * k <= batch * m * k,
        0 <= k * n,
        0 <= b * (k * n),
        b * (k * n) + k * n <= batch * (k * n),
        (b * m + s) * n + rows * n <= batch * m * n,
        0 <= (b * m + s) * n,
{
    let row = b * m + s;
    assert(0 <= b * m && row + rows <= batch * m) by (nonlinear_arith)
        requires
            row == b * m + s,
            0 <= b,
            b + 1 <= batch,
            s + rows <= m,
            0 <= s,
            0 <= rows,
    ;
    assert(0 <= row * k && row * k + rows * k <= batch * m * k) by (nonlinear_arith)
        requires
            0 <= row,
            0 <= rows,
            row + rows <= batch * m,
            0 <= k,
    ;
    assert(0 <= row * n && row * n + rows * n <= batch * m * n) by (nonlinear_arith)
        requires
            0 <= row,
            0 <= rows,
            row + rows <= batch * m,
            0 <= n,
    ;
    assert(0 <= k * n) by (nonlinear_arith)
        requires
            0 <= k,
            0 <= n,
    ;
    assert(0 <= b * (k * n) && b * (k * n) + k * n <= batch * (k * n)) by (nonlinear_arith)
        requires
            0 <= b,
            b + 1 <= batch,
            0 <= k * n,
    ;
}

/// Where element `i` of a result computed in chunks of rows comes from: the block that
/// computed it, and its position in that block.
pub proof fn lemma_chunk_element<T, P: Fn(&Vec<T>, &Vec<T>, Product) -> Vec<T>>(
    product: P,
    lhs: Vec<T>,
    rhs: Vec<T>,
    batch: int,
    m: int,
    k: int,
    n: int,
    chunk: int,
    out: Seq<T>,
    i: int,
) -> (r: (Product, Vec<T>, int))
    requires
        is_chunked_product(product, lhs, rhs, batch, m, k, n, chunk, out),
        lhs.len() == batch * m * k,
        rhs.len() == batch * (k * n),
        0 <= batch,
        0 <= m <= usize::MAX,
        0 <= k <= usize::MAX,
        0 <= n <= usize::MAX,
        1 <= chunk,
        0 <= i < out.len(),
    ensures
        call_ensures(product, (&lhs, &rhs, r.0), r.1),
        0 <= r.2 < r.1.len(),
        r.1@[r.2] == out[i],
        n > 0,
        r.2 % n == i % n,
        r.0.lhs_offset + (r.2 / n) * k == (i / n) * k,
        r.0.rhs_offset == (i / n / m) * (k * n),
        r.0.inner == k,
        r.0.cols == n,
        0 <= i / n < batch * m,
{
    assert(batch > 0 && m > 0 && n > 0) by (nonlinear_arith)
        requires
            0 < batch * m * n,
            batch >= 0,
            m >= 0,
            n >= 0,
    ;
    let row = i / n;
    let col = i % n;
    vstd::arithmetic::div_mod::lemma_fundamental_div_mod(i, n);
    assert(0 <= row < batch * m) by (nonlinear_arith)
        requires
            0 <= i < batch * m * n,
            i == n * row + col,
            0 <= col < n,
            n > 0,
    ;
    let b = row / m;
    let q = row % m;
    vstd::arithmetic::div_mod::lemma_fundamental_div_mod(row, m);
    assert(0 <= b < batch) by (nonlinear_arith)
        requires
            0 <= row < batch * m,
            row == m * b + q,
            0 <= q < m,
            m > 0,
    ;
    let s = q - q % chunk;
    vstd::arithmetic::div_mod::lemma_fundamental_div_mod(q, chunk);
    let w = q / chunk;
    assert(s == w * chunk && 0 <= s) by (nonlinear_arith)
        requires
            q == chunk * w + q % chunk,
            s == q - q % chunk,
            0 <= q,
            chunk >= 1,
            w == q / chunk,
    ;
    vstd::arithmetic::div_mod::lemma_mod_multiples_basic(w, chunk);
    assert(s % chunk == 0);
    assert(is_block(product, lhs, rhs, b, s, m, k, n, chunk, out));
    let block = block_at(b, s, m, k, n, chunk);
    let rows = least(chunk, m - s);
    let v = choose|v: Vec<T>| #[trigger]
        call_ensures(product, (&lhs, &rhs, block), v) && out.subrange(
            (b * m + s) * n,
            (b * m + s + block.rows) * n,
        ) == v@;
    lemma_block_bounds(b, s, rows, batch, m, k, n);
    let at = (q - s) * n + col;
    let base = (b * m + s) * n;
    assert((b * m + s + rows) * n == base + rows * n) by (nonlinear_arith)
        requires
            base == (b * m + s) * n,
    ;
    assert(base + at == i && 0 <= at < rows * n) by (nonlinear_arith)
        requires
            base == (b * m + s) * n,
            at == (q - s) * n + col,
            i == n * row + col,
            row == m * b + q,
            0 <= col < n,
            0 <= q - s,
            q - s + 1 <= rows,
    ;
    vstd::arithmetic::div_mod::lemma_fundamental_div_mod_converse(at, n, q - s, col);
    assert((b * m + s) * k + (q - s) * k == row * k) by (nonlinear_arith)
        requires
            row == m * b + q,
    ;
    (block, v, at)
}

// ---------------------------------------------------------------------------
// Matrix products
// ---------------------------------------------------------------------------
/// A message about two shapes.
pub open spec fn two_shapes_text(what: Seq<char>, a: Seq<usize>, b: Seq<usize>) -> Seq<char> {
    what + list_text(a) + " and "@ + list_text(b)
}

fn two_shapes_error(what: &str, a: &[usize], b: &[usize]) -> (e: Error)
    ensures
        e@ == two_shapes_text(what@, a@, b@),
{
    let mut text = String::from_str(what);
    push_list(&mut text, a);
    text.append(" and ");
    push_list(&mut text, b);
    Error::from_text(text)
}

/// The dimensions before the last two.
pub open spec fn lead(shape: Seq<usize>) -> Seq<usize> {
    shape.take(shape.len() - 2)
}

/// What is wrong with the shapes of two operands: both are stacks of matrices of
/// the same arrangement, and the inner dimensions agree.
pub open spec fn matmul_error(lhs: Seq<usize>, rhs: Seq<usize>) -> Option<Seq<char>> {
    if lhs.len() < 2 || rhs.len() < 2 {
        Some(two_shapes_text("matmul requires rank >= 2, got "@, lhs, rhs))
    } else if rhs[rhs.len() - 2] != lhs[lhs.len() - 1] {
        Some(two_shapes_text("matmul inner dimension mismatch: "@, lhs, rhs))
    } else if lead(lhs) != lead(rhs) {
        Some(two_shapes_text("matmul batch dimension mismatch: "@, lhs, rhs))
    } else {
        None
    }
}

/// The shape of the product.
pub open spec fn matmul_shape(lhs: Seq<usize>, rhs: Seq<usize>) -> Seq<usize> {
    lead(lhs).push(lhs[lhs.len() - 2]).push(rhs[rhs.len() - 1])
}

pub proof fn lemma_size_stack(shape: Seq<usize>)
    requires
        shape.len() >= 2,
    ensures
        size(shape) == size(lead(shape)) * shape[shape.len() - 2] * shape[shape.len() - 1],
{
    assert(shape.drop_last().drop_last() =~= lead(shape));
    assert(shape.drop_last().last() == shape[shape.len() - 2]);
    assert(size(shape) == size(shape.drop_last()) * shape.last());
    assert(size(shape.drop_last()) == size(shape.drop_last().drop_last())
        * shape.drop_last().last());
}

/// Checks the shapes of two operands.
pub fn check_matmul(lhs: &[usize], rhs: &[usize]) -> (r: Result<(), Error>)
    ensures
        match r {
            Ok(_) => matmul_error(lhs@, rhs@) is None,
            Err(e) => matmul_error(lhs@, rhs@) == Some(e@),
        },
{
    if lhs.len() < 2 || rhs.len() < 2 {
        return Err(two_shapes_error("matmul requires rank >= 2, got ", lhs, rhs));
    }
    if rhs[rhs.len() - 2] != lhs[lhs.len() - 1] {
        return Err(two_shapes_error("matmul inner dimension mismatch: ", lhs, rhs));
    }
    let a: Vec<usize> = copy_range(lhs, 0, lhs.len() - 2);
    let b: Vec<usize> = copy_range(rhs, 0, rhs.len() - 2);
    assert(a@ =~= lead(lhs@));
    assert(b@ =~= lead(rhs@));
    if !same_sizes(&a, &b) {
        return Err(two_shapes_error("matmul batch dimension mismatch: ", lhs, rhs));
    }
    Ok(())
}

/// `product` takes every block that lies within its operands, and gives as many
/// elements as its result has.
pub open spec fn is_product_function<T, P: Fn(&Vec<T>, &Vec<T>, Product) -> Vec<T>>(
    product: P,
    lhs: &Vec<T>,
    rhs: &Vec<T>,
) -> bool {
    &&& forall|p: Product|
        lies_within(p, lhs.len() as int, rhs.len() as int) ==> call_requires(product, (lhs, rhs, p))
    &&& forall|p: Product, v: Vec<T>|
        call_ensures(product, (lhs, rhs, p), v) ==> v.len() == p.rows * p.cols
}

impl<T: Copy> CpuTensor<T> {
    /// The products of two stacks of matrices, one after the other, with at most
    /// `chunk` rows at a time.
    pub fn matmul_in_chunks<P: Fn(&Vec<T>, &Vec<T>, Product) -> Vec<T>>(
        &self,
        rhs: &CpuTensor<T>,
        chunk: usize,
        product: P,
    ) -> (r: Result<CpuTensor<T>, Error>)
        requires
            self.well_formed(),
            rhs.well_formed(),
            chunk >= 1,
            is_product_function(product, &self.data, &rhs.data),
        ensures
            match r {
                Ok(t) => {
                    &&& matmul_error(self.shape@, rhs.shape@) is None
                    &&& t.well_formed()
                    &&& fits(t.shape@)
                    &&& t.shape@ == matmul_shape(self.shape@, rhs.shape@)
                    &&& is_chunked_product(
                        product,
                        self.data,
                        rhs.data,
                        size(lead(self.shape@)),
                        self.shape@[self.shape.len() - 2] as int,
                        self.shape@[self.shape.len() - 1] as int,
                        rhs.shape@[rhs.shape.len() - 1] as int,
                        chunk as int,
                        t.data@,
                    )
                },
                Err(e) => match matmul_error(self.shape@, rhs.shape@) {
                    Some(text) => e@ == text,
                    None => !fits(matmul_shape(self.shape@, rhs.shape@)) && e@ == too_large_text(
                        matmul_shape(self.shape@, rhs.shape@),
                    ),
                },
            },
    {
        if let Err(e) = check_matmul(&self.shape, &rhs.shape) {
            return Err(e);
        }
        let rank: usize = self.shape.len();
        let m: usize = self.shape[rank - 2];
        let k: usize = self.shape[rank - 1];
        let n: usize = rhs.shape[rhs.shape.len() - 1];
        let front: Vec<usize> = copy_range(&self.shape, 0, rank - 2);
        let mut shape: Vec<usize> = copy_range(&self.shape, 0, rank - 2);
        shape.push(m);
        shape.push(n);
        assert(front@ =~= lead(self.shape@));
        assert(shape@ =~= matmul_shape(self.shape@, rhs.shape@));
        let total: usize = match checked_num_elements(&shape) {
            Ok(total) => total,
            Err(e) => {
                return Err(e);
            },
        };
        proof {
            crate::tensor::shape::lemma_fits_take(shape@, rank - 2);
            assert(shape@.take(rank - 2) =~= front@);
            lemma_size_stack(self.shape@);
            lemma_size_stack(rhs.shape@);
            lemma_size_stack(shape@);
            assert(lead(shape@) =~= front@);
            let b = size(front@);
            assert(b * k * n == b * (k * n)) by (nonlinear_arith);
        }
        let batch: usize = plain_num_elements(&front);
        let data: Vec<T> = chunked_product(
            &self.data,
            &rhs.data,
            batch,
            m,
            k,
            n,
            total,
            chunk,
            &product,
        );
        Ok(CpuTensor { data, shape })
    }

    /// The products of two stacks of matrices, one product for each pair.
    pub fn matmul<P: Fn(&Vec<T>, &Vec<T>, Product) -> Vec<T>>(
        &self,
        rhs: &CpuTensor<T>,
        product: P,
    ) -> (r: Result<CpuTensor<T>, Error>)
        requires
            self.well_formed(),
            rhs.well_formed(),
            is_product_function(product, &self.data, &rhs.data),
        ensures
            match r {
                Ok(t) => {
                    &&& matmul_error(self.shape@, rhs.shape@) is None
                    &&& t.well_formed()
                    &&& fits(t.shape@)
                    &&& t.shape@ == matmul_shape(self.shape@, rhs.shape@)
                    &&& is_chunked_product(
                        product,
                        self.data,
                        rhs.data,
                        size(lead(self.shape@)),
                        self.shape@[self.shape.len() - 2] as int,
                        self.shape@[self.shape.len() - 1] as int,
                        rhs.shape@[rhs.shape.len() - 1] as int,
                        usize::MAX as int,
                        t.data@,
                    )
                },
                Err(e) => match matmul_error(self.shape@, rhs.shape@) {
                    Some(text) => e@ == text,
                    None => !fits(matmul_shape(self.shape@, rhs.shape@)) && e@ == too_large_text(
                        matmul_shape(self.shape@, rhs.shape@),
                    ),
                },
            },
    {
        self.matmul_in_chunks(rhs, usize::MAX, product)
    }

    /// Weighs the values by the attention probabilities, head by head and with at
    /// most `chunk` rows at a time.
    pub fn attention_value_matmul<P: Fn(&Vec<T>, &Vec<T>, Product) -> Vec<T>>(
        probs: &CpuTensor<T>,
        v: &CpuTensor<T>,
        chunk: usize,
        product: P,
    ) -> (r: Result<CpuTensor<T>, Error>)
        requires
            probs.well_formed(),
            v.well_formed(),
            chunk >= 1,
            is_product_function(product, &probs.data, &v.data),
        ensures
            match r {
                Ok(t) => {
                    &&& matmul_error(probs.shape@, v.shape@) is None
                    &&& t.well_formed()
                    &&& fits(t.shape@)
                    &&& t.shape@ == matmul_shape(probs.shape@, v.shape@)
                    &&& is_chunked_product(
                        product,
                        probs.data,
                        v.data,
                        size(lead(probs.shape@)),
                        probs.shape@[probs.shape.len() - 2] as int,
                        probs.shape@[probs.shape.len() - 1] as int,
                        v.shape@[v.shape.len() - 1] as int,
                        if probs.shape.len() == 3 {
                            chunk as int
                        } else {
                            usize::MAX as int
                        },
                        t.data@,
                    )
                },
                Err(e) => match matmul_error(probs.shape@, v.shape@) {
                    Some(text) => e@ == text,
                    None => !fits(matmul_shape(probs.shape@, v.shape@)) && e@ == too_large_text(
                        matmul_shape(probs.shape@, v.shape@),
                    ),
                },
            },
    {
        if probs.shape.len() != 3 {
            return probs.matmul(v, product);
        }
        probs.matmul_in_chunks(v, chunk, product)
    }
}

// ---------------------------------------------------------------------------
// Linear layers
// ---------------------------------------------------------------------------
/// What is wrong with the shapes of a linear layer.
pub open spec fn linear_error(
    input: Seq<usize>,
    weight: Seq<usize>,
    bias: Option<Seq<usize>>,
) -> Option<Seq<char>> {
    if input.len() == 0 {
        Some("linear expects an input tensor with at least one dimension"@)
    } else if weight.len() != 2 {
        Some("linear weight must be rank-2 [out_dim, in_dim], got "@ + list_text(weight))
    } else if weight[1] != input[input.len() - 1] {
        Some(
            "linear shape mismatch: input "@ + list_text(input) + ", weight "@ + list_text(weight),
        )
    } else if bias is Some && bias->0 != seq![weight[0]] {
        Some(
            "linear bias must have shape ["@ + decimal(weight[0] as nat) + "], got "@ + list_text(
                bias->0,
            ),
        )
    } else {
        None
    }
}

pub open spec fn bias_shape<T>(bias: Option<&CpuTensor<T>>) -> Option<Seq<usize>> {
    match bias {
        Some(b) => Some(b.shape@),
        None => None,
    }
}

pub open spec fn sizes_view(shape: Option<&Vec<usize>>) -> Option<Seq<usize>> {
    match shape {
        Some(s) => Some(s@),
        None => None,
    }
}

fn shape_of<T>(t: Option<&CpuTensor<T>>) -> (shape: Option<&Vec<usize>>)
    ensures
        sizes_view(shape) == bias_shape(t),
{
    match t {
        Some(t) => Some(&t.shape),
        None => None,
    }
}

/// Checks the shapes of a linear layer.
pub fn check_linear(input: &[usize], weight: &[usize], bias: Option<&Vec<usize>>) -> (r: Result<
    (),
    Error,
>)
    ensures
        match r {
            Ok(_) => linear_error(input@, weight@, sizes_view(bias)) is None,
            Err(e) => linear_error(input@, weight@, sizes_view(bias)) == Some(e@),
        },
{
    if input.len() == 0 {
        return Err(
            Error::message("linear expects an input tensor with at least one dimension"),
        );
    }
    if weight.len() != 2 {
        let mut text = String::from_str("linear weight must be rank-2 [out_dim, in_dim], got ");
        push_list(&mut text, weight);
        return Err(Error::from_text(text));
    }
    if weight[1] != input[input.len() - 1] {
        let mut text = String::from_str("linear shape mismatch: input ");
        push_list(&mut text, input);
        text.append(", weight ");
        push_list(&mut text, weight);
        return Err(Error::from_text(text));
    }
    if let Some(b) = bias {
        if !(b.len() == 1 && b[0] == weight[0]) {
            let mut text = String::from_str("linear bias must have shape [");
            push_decimal(&mut text, weight[0] as u64);
            text.append("], got ");
            push_list(&mut text, b);
            assert(b@ != seq![weight@[0]]);
            return Err(Error::from_text(text));
        }
        assert(b@ =~= seq![weight@[0]]);
    }
    Ok(())
}

/// `out` is `products` with the bias of its column added to every element.
pub open spec fn is_biased<T, A: Fn(T, T) -> T>(
    products: Seq<T>,
    bias: Option<&CpuTensor<T>>,
    cols: int,
    plus: A,
    out: Seq<T>,
) -> bool {
    match bias {
        None => out == products,
        Some(b) => out.len() == products.len() && forall|i: int|
            0 <= i < out.len() ==> call_ensures(
                plus,
                (products[i], b.data@[i % cols]),
                #[trigger] out[i],
            ),
    }
}

impl<T: Copy> CpuTensor<T> {
    /// Multiplies every row along the last axis by the rows of `weight`, with at
    /// most `chunk` rows at a time, and adds the bias.
    pub fn linear<P: Fn(&Vec<T>, &Vec<T>, Product) -> Vec<T>, A: Fn(T, T) -> T>(
        &self,
        weight: &CpuTensor<T>,
        bias: Option<&CpuTensor<T>>,
        chunk: usize,
        product: P,
        plus: A,
    ) -> (r: Result<CpuTensor<T>, Error>)
        requires
            self.well_formed(),
            weight.well_formed(),
            bias is Some ==> bias->0.well_formed(),
            chunk >= 1,
            is_product_function(product, &self.data, &weight.data),
            forall|x: T, y: T| call_requires(plus, (x, y)),
        ensures
            match r {
                Ok(t) => {
                    &&& linear_error(self.shape@, weight.shape@, bias_shape(bias)) is None
                    &&& t.well_formed()
                    &&& fits(t.shape@)
                    &&& t.shape@ == self.shape@.drop_last().push(weight.shape@[0])
                    &&& exists|products: Seq<T>| #[trigger]
                        is_chunked_product(
                            product,
                            self.data,
                            weight.data,
                            1,
                            size(self.shape@.drop_last()),
                            weight.shape@[1] as int,
                            weight.shape@[0] as int,
                            chunk as int,
                            products,
                        ) && is_biased(products, bias, weight.shape@[0] as int, plus, t.data@)
                },
                Err(e) => match linear_error(self.shape@, weight.shape@, bias_shape(bias)) {
                    Some(text) => e@ == text,
                    None => {
                        let out = self.shape@.drop_last().push(weight.shape@[0]);
                        !fits(out) && e@ == too_large_text(out)
                    },
                },
            },
    {
        if let Err(e) = check_linear(&self.shape, &weight.shape, shape_of(bias)) {
            return Err(e);
        }
        let rank: usize = self.shape.len();
        let in_dim: usize = weight.shape[1];
        let out_dim: usize = weight.shape[0];
        let front: Vec<usize> = copy_range(&self.shape, 0, rank - 1);
        let mut shape: Vec<usize> = copy_range(&self.shape, 0, rank - 1);
        shape.push(out_dim);
        assert(front@ =~= self.shape@.drop_last());
        assert(shape@ =~= self.shape@.drop_last().push(out_dim));
        let total: usize = match checked_num_elements(&shape) {
            Ok(total) => total,
            Err(e) => {
                return Err(e);
            },
        };
        proof {
            crate::tensor::shape::lemma_fits_take(shape@, rank - 1);
            assert(shape@.take(rank - 1) =~= front@);
            assert(shape@.drop_last() =~= front@);
            assert(weight.shape@ =~= seq![out_dim, in_dim]);
            lemma_size_two(out_dim, in_dim);
            let rows = size(front@);
            assert(1 * rows * in_dim == rows * in_dim) by (nonlinear_arith);
            assert(1 * rows * out_dim == rows * out_dim) by (nonlinear_arith);
            assert(1 * (in_dim * out_dim) == out_dim * in_dim) by (nonlinear_arith);
        }
        let rows: usize = plain_num_elements(&front);
        let products: Vec<T> = chunked_product(
            &self.data,
            &weight.data,
            1,
            rows,
            in_dim,
            out_dim,
            total,
            chunk,
            &product,
        );
        let data: Vec<T> = match bias {
            None => copy_all(&products),
            Some(b) => {
                proof {
                    lemma_size_one(out_dim);
                }
                add_bias(&products, &b.data, out_dim, rows, &plus)
            },
        };
        assert(is_biased(products@, bias, out_dim as int, plus, data@));
        Ok(CpuTensor { data, shape })
    }
}

fn add_bias<T: Copy, A: Fn(T, T) -> T>(
    products: &Vec<T>,
    bias: &Vec<T>,
    cols: usize,
    rows: usize,
    plus: &A,
) -> (out: Vec<T>)
    requires
        bias.len() == cols,
        products.len() == rows * cols,
        forall|x: T, y: T| call_requires(*plus, (x, y)),
    ensures
        out.len() == products.len(),
        forall|i: int|
            0 <= i < out.len() ==> call_ensures(
                *plus,
                (products@[i], bias@[i % cols as int]),
                #[trigger] out@[i],
            ),
{
    let mut out: Vec<T> = Vec::new();
    let mut i: usize = 0;
    while i < products.len()
        invariant
            i <= products.len(),
            bias.len() == cols,
            products.len() == rows * cols,
            forall|x: T, y: T| call_requires(*plus, (x, y)),
            out.len() == i,
            forall|j: int|
                0 <= j < i ==> call_ensures(
                    *plus,
                    (products@[j], bias@[j % cols as int]),
                    #[trigger] out@[j],
                ),
        decreases products.len() - i,
    {
        assert(cols > 0) by (nonlinear_arith)
            requires
                0 <= i < rows * cols,
                rows >= 0,
                cols >= 0,
        ;
        out.push(plus(products[i], bias[i % cols]));
        i += 1;
    }
    out
}

// ---------------------------------------------------------------------------
// Attention scores
// ---------------------------------------------------------------------------
/// What is wrong with the shapes of queries, transposed keys and mask.
pub open spec fn score_error(
    q: Seq<usize>,
    k_t: Seq<usize>,
    mask: Option<Seq<usize>>,
) -> Option<Seq<char>> {
    if q.len() != 3 || k_t.len() != 3 {
        Some(two_shapes_text("attention_score_softmax expects q/k_t rank-3, got "@, q, k_t))
    } else if q[0] != k_t[0] || q[2] != k_t[1] {
        Some(
            "attention_score_softmax shape mismatch: q="@ + list_text(q) + " k_t="@ + list_text(
                k_t,
            ),
        )
    } else if mask is Some && mask->0 != seq![q[1], k_t[2]] && mask->0 != seq![
        q[0],
        q[1],
        k_t[2],
    ] {
        Some(mask_text(q[0] as nat, q[1] as nat, k_t[2] as nat, mask->0))
    } else {
        None
    }
}

pub open spec fn mask_text(heads: nat, queries: nat, keys: nat, mask: Seq<usize>) -> Seq<char> {
    "attention_score_softmax mask shape must be ["@ + decimal(queries) + ", "@ + decimal(keys)
        + "] or ["@ + decimal(heads) + ", "@ + decimal(queries) + ", "@ + decimal(keys) + "], got "@
        + list_text(mask)
}

fn check_score<T>(q: &[usize], k_t: &[usize], mask: Option<&CpuTensor<T>>) -> (r: Result<(), Error>)
    ensures
        match r {
            Ok(_) => score_error(q@, k_t@, bias_shape(mask)) is None,
            Err(e) => score_error(q@, k_t@, bias_shape(mask)) == Some(e@),
        },
{
    if q.len() != 3 || k_t.len() != 3 {
        return Err(
            two_shapes_error("attention_score_softmax expects q/k_t rank-3, got ", q, k_t),
        );
    }
    if q[0] != k_t[0] || q[2] != k_t[1] {
        let mut text = String::from_str("attention_score_softmax shape mismatch: q=");
        push_list(&mut text, q);
        text.append(" k_t=");
        push_list(&mut text, k_t);
        return Err(Error::from_text(text));
    }
    if let Some(mask) = mask {
        let mut shared: Vec<usize> = Vec::new();
        shared.push(q[1]);
        shared.push(k_t[2]);
        assert(shared@ =~= seq![q@[1], k_t@[2]]);
        let mut own: Vec<usize> = Vec::new();
        own.push(q[0]);
        own.push(q[1]);
        own.push(k_t[2]);
        assert(own@ =~= seq![q@[0], q@[1], k_t@[2]]);
        if !same_sizes(&mask.shape, &shared) && !same_sizes(&mask.shape, &own) {
            let mut text = String::from_str("attention_score_softmax mask shape must be [");
            push_decimal(&mut text, q[1] as u64);
            text.append(", ");
            push_decimal(&mut text, k_t[2] as u64);
            text.append("] or [");
            push_decimal(&mut text, q[0] as u64);
            text.append(", ");
            push_decimal(&mut text, q[1] as u64);
            text.append(", ");
            push_decimal(&mut text, k_t[2] as u64);
            text.append("], got ");
            push_list(&mut text, &mask.shape);
            return Err(Error::from_text(text));
        }
    }
    Ok(())
}

/// The row of the mask for a row of scores: a mask of rank two is shared by all
/// heads, one of rank three has rows for each.
pub open spec fn mask_row(mask_rank: int, row: int, queries: int) -> int {
    if mask_rank == 2 {
        row % queries
    } else {
        row
    }
}

/// `after` is row `row` of the scores with the mask added.
pub open spec fn is_masked_row<T, A: Fn(T, T) -> T>(
    before: Seq<T>,
    mask: Option<&CpuTensor<T>>,
    row: int,
    queries: int,
    keys: int,
    plus: A,
    after: Seq<T>,
) -> bool {
    match mask {
        None => after == before,
        Some(m) => after.len() == before.len() && forall|c: int|
            0 <= c < before.len() ==> call_ensures(
                plus,
                (
                    before[c],
                    m.data@[mask_row(m.shape@.len() as int, row, queries) * keys + c],
                ),
                #[trigger] after[c],
            ),
    }
}

/// Row `row` of `out` is what `softmax` can give on the masked row of `scores`.
pub open spec fn is_attention_row<T, A: Fn(T, T) -> T, S: Fn(&Vec<T>) -> Vec<T>>(
    scores: Seq<T>,
    mask: Option<&CpuTensor<T>>,
    row: int,
    queries: int,
    keys: int,
    plus: A,
    softmax: S,
    out: Seq<T>,
) -> bool {
    exists|masked: Seq<T>| #[trigger]
        is_masked_row(
            scores.subrange(row * keys, row * keys + keys),
            mask,
            row,
            queries,
            keys,
            plus,
            masked,
        ) && is_kernel_result(softmax, masked, out.subrange(row * keys, row * keys + keys))
}

/// All rows of `out` are the attention rows of `scores`.
pub open spec fn are_attention_rows<T, A: Fn(T, T) -> T, S: Fn(&Vec<T>) -> Vec<T>>(
    scores: Seq<T>,
    mask: Option<&CpuTensor<T>>,
    rows: int,
    queries: int,
    keys: int,
    plus: A,
    softmax: S,
    out: Seq<T>,
) -> bool {
    keys > 0 ==> forall|row: int|
        0 <= row < rows ==> #[trigger] is_attention_row(
            scores,
            mask,
            row,
            queries,
            keys,
            plus,
            softmax,
            out,
        )
}

/// `out` holds the attention probabilities: the products of queries and keys,
/// masked and normalised row by row.
pub open spec fn are_probabilities<
    T,
    P: Fn(&Vec<T>, &Vec<T>, Product) -> Vec<T>,
    A: Fn(T, T) -> T,
    S: Fn(&Vec<T>) -> Vec<T>,
>(
    q: CpuTensor<T>,
    k_t: CpuTensor<T>,
    mask: Option<&CpuTensor<T>>,
    score: P,
    plus: A,
    softmax: S,
    out: Seq<T>,
) -> bool {
    exists|scores: Seq<T>| #[trigger]
        is_chunked_product(
            score,
            q.data,
            k_t.data,
            q.shape@[0] as int,
            q.shape@[1] as int,
            q.shape@[2] as int,
            k_t.shape@[2] as int,
            usize::MAX as int,
            scores,
        ) && are_attention_rows(
            scores,
            mask,
            q.shape@[0] * q.shape@[1],
            q.shape@[1] as int,
            k_t.shape@[2] as int,
            plus,
            softmax,
            out,
        )
}

proof fn lemma_attention_row_extends<T, A: Fn(T, T) -> T, S: Fn(&Vec<T>) -> Vec<T>>(
    scores: Seq<T>,
    mask: Option<&CpuTensor<T>>,
    row: int,
    queries: int,
    keys: int,
    plus: A,
    softmax: S,
    out: Seq<T>,
    longer: Seq<T>,
)
    requires
        is_attention_row(scores, mask, row, queries, keys, plus, softmax, out),
        0 <= row * keys,
        0 <= keys,
        row * keys + keys <= out.len() <= longer.len(),
        forall|i: int| 0 <= i < out.len() ==> longer[i] == out[i],
    ensures
        is_attention_row(scores, mask, row, queries, keys, plus, softmax, longer),
{
    assert(longer.subrange(row * keys, row * keys + keys) =~= out.subrange(
        row * keys,
        row * keys + keys,
    ));
}

/// Masks and normalises all rows of scores.
fn finish_rows<T: Copy, A: Fn(T, T) -> T, S: Fn(&Vec<T>) -> Vec<T>>(
    scores: &Vec<T>,
    mask: Option<&CpuTensor<T>>,
    rows: usize,
    heads: usize,
    queries: usize,
    keys: usize,
    plus: &A,
    softmax: &S,
) -> (out: Vec<T>)
    requires
        rows == heads * queries,
        scores.len() == rows * keys,
        mask is Some ==> mask->0.well_formed() && (mask->0.shape@ == seq![queries, keys]
            || mask->0.shape@ == seq![heads, queries, keys]),
        forall|x: T, y: T| call_requires(*plus, (x, y)),
        forall|v: &Vec<T>| call_requires(*softmax, (v,)),
        forall|v: &Vec<T>, r: Vec<T>| call_ensures(*softmax, (v,), r) ==> r.len() == v.len(),
    ensures
        out.len() == scores.len(),
        are_attention_rows(
            scores@,
            mask,
            rows as int,
            queries as int,
            keys as int,
            *plus,
            *softmax,
            out@,
        ),
{
    let mut out: Vec<T> = Vec::new();
    if scores.len() == 0 {
        proof {
            if keys > 0 {
                assert(rows == 0) by (nonlinear_arith)
                    requires
                        rows * keys == 0,
                        keys > 0,
                ;
            }
        }
        return out;
    }
    let ghost kd = keys as int;
    proof {
        assert(keys > 0 && rows > 0 && queries > 0) by (nonlinear_arith)
            requires
                rows * keys > 0,
                rows == heads * queries,
                rows >= 0,
                keys >= 0,
                heads >= 0,
                queries >= 0,
        ;
        if let Some(m) = mask {
            lemma_size_two(queries, keys);
            lemma_size_three(heads, queries, keys);
        }
    }
    let mut row: usize = 0;
    assert(row * kd == 0) by (nonlinear_arith)
        requires
            row == 0,
    ;
    while row < rows
        invariant
            row <= rows,
            kd == keys,
            keys > 0,
            queries > 0,
            rows == heads * queries,
            scores.len() == rows * keys,
            mask is Some ==> mask->0.well_formed() && (mask->0.shape@ == seq![queries, keys]
                || mask->0.shape@ == seq![heads, queries, keys]),
            mask is Some && mask->0.shape@.len() == 2 ==> mask->0.data.len() == queries * keys,
            mask is Some && mask->0.shape@.len() == 3 ==> mask->0.data.len() == heads * queries
                * keys,
            forall|x: T, y: T| call_requires(*plus, (x, y)),
            forall|v: &Vec<T>| call_requires(*softmax, (v,)),
            forall|v: &Vec<T>, r: Vec<T>| call_ensures(*softmax, (v,), r) ==> r.len() == v.len(),
            out.len() == row * kd,
            forall|i: int|
                0 <= i < row ==> #[trigger] is_attention_row(
                    scores@,
                    mask,
                    i,
                    queries as int,
                    kd,
                    *plus,
                    *softmax,
                    out@,
                ),
        decreases rows - row,
    {
        assert(row * kd + kd <= rows * kd && 0 <= row * kd) by (nonlinear_arith)
            requires
                row + 1 <= rows,
                kd >= 0,
                row >= 0,
        ;
        let start: usize = row * keys;
        let mut masked: Vec<T> = copy_range(scores, start, start + keys);
        let ghost before = masked@;
        if let Some(m) = mask {
            let source: usize = if m.shape.len() == 2 {
                row % queries
            } else {
                row
            };
            proof {
                if m.shape.len() == 2 {
                    let h = row as int % queries as int;
                    assert(h * kd + kd <= queries * kd && 0 <= h * kd) by (nonlinear_arith)
                        requires
                            0 <= h,
                            h + 1 <= queries,
                            kd >= 0,
                    ;
                } else {
                    assert(m.data.len() == rows * kd);
                }
            }
            masked = mask_values(&masked, &m.data, source * keys, plus);
        }
        assert(is_masked_row(before, mask, row as int, queries as int, kd, *plus, masked@));
        let result: Vec<T> = softmax(&masked);
        let ghost earlier = out@;
        extend_range(&mut out, &result, 0, result.len());
        proof {
            assert(result@.subrange(0, result.len() as int) =~= result@);
            assert(call_ensures(*softmax, (&masked,), result));
            assert(is_kernel_result(*softmax, masked@, result@));
            assert(out@.subrange(row * kd, row * kd + kd) =~= result@);
            assert(is_attention_row(
                scores@,
                mask,
                row as int,
                queries as int,
                kd,
                *plus,
                *softmax,
                out@,
            ));
            assert forall|i: int| 0 <= i < row + 1 implies #[trigger] is_attention_row(
                scores@,
                mask,
                i,
                queries as int,
                kd,
                *plus,
                *softmax,
                out@,
            ) by {
                if i < row {
                    assert(0 <= i * kd && i * kd + kd <= row * kd) by (nonlinear_arith)
                        requires
                            0 <= i,
                            i + 1 <= row,
                            kd >= 0,
                    ;
                    lemma_attention_row_extends(
                        scores@,
                        mask,
                        i,
                        queries as int,
                        kd,
                        *plus,
                        *softmax,
                        earlier,
                        out@,
                    );
                }
            }
            assert((row + 1) * kd == row * kd + kd) by (nonlinear_arith);
        }
        row += 1;
    }
    out
}

fn mask_values<T: Copy, A: Fn(T, T) -> T>(
    values: &Vec<T>,
    mask: &Vec<T>,
    start: usize,
    plus: &A,
) -> (out: Vec<T>)
    requires
        start + values.len() <= mask.len(),
        forall|x: T, y: T| call_requires(*plus, (x, y)),
    ensures
        out.len() == values.len(),
        forall|c: int|
            0 <= c < values.len() ==> call_ensures(
                *plus,
                (values@[c], mask@[start + c]),
                #[trigger] out@[c],
            ),
{
    let mut out: Vec<T> = Vec::new();
    let mut c: usize = 0;
    while c < values.len()
        invariant
            c <= values.len(),
            start + values.len() <= mask.len(),
            forall|x: T, y: T| call_requires(*plus, (x, y)),
            out.len() == c,
            forall|j: int|
                0 <= j < c ==> call_ensures(
                    *plus,
                    (values@[j], mask@[start + j]),
                    #[trigger] out@[j],
                ),
        decreases values.len() - c,
    {
        out.push(plus(values[c], mask[start + c]));
        c += 1;
    }
    out
}

impl<T: Copy> CpuTensor<T> {
    /// The attention probabilities: for every head the products of its queries
    /// and keys, the mask added, and every row normalised.
    pub fn attention_score_softmax<
        P: Fn(&Vec<T>, &Vec<T>, Product) -> Vec<T>,
        A: Fn(T, T) -> T,
        S: Fn(&Vec<T>) -> Vec<T>,
    >(
        q: &CpuTensor<T>,
        k_t: &CpuTensor<T>,
        mask: Option<&CpuTensor<T>>,
        score: P,
        plus: A,
        softmax: S,
    ) -> (r: Result<CpuTensor<T>, Error>)
        requires
            q.well_formed(),
            k_t.well_formed(),
            mask is Some ==> mask->0.well_formed(),
            is_product_function(score, &q.data, &k_t.data),
            forall|x: T, y: T| call_requires(plus, (x, y)),
            forall|v: &Vec<T>| call_requires(softmax, (v,)),
            forall|v: &Vec<T>, r: Vec<T>| call_ensures(softmax, (v,), r) ==> r.len() == v.len(),
        ensures
            match r {
                Ok(t) => {
                    &&& score_error(q.shape@, k_t.shape@, bias_shape(mask)) is None
                    &&& t.well_formed()
                    &&& fits(t.shape@)
                    &&& t.shape@ == seq![q.shape@[0], q.shape@[1], k_t.shape@[2]]
                    &&& are_probabilities(*q, *k_t, mask, score, plus, softmax, t.data@)
                },
                Err(e) => match score_error(q.shape@, k_t.shape@, bias_shape(mask)) {
                    Some(text) => e@ == text,
                    None => {
                        let out = seq![q.shape@[0], q.shape@[1], k_t.shape@[2]];
                        !fits(out) && e@ == too_large_text(out)
                    },
                },
            },
    {
        if let Err(e) = check_score(&q.shape, &k_t.shape, mask) {
            return Err(e);
        }
        let heads: usize = q.shape[0];
        let queries: usize = q.shape[1];
        let head_dim: usize = q.shape[2];
        let keys: usize = k_t.shape[2];
        let mut shape: Vec<usize> = Vec::new();
        shape.push(heads);
        shape.push(queries);
        shape.push(keys);
        assert(shape@ =~= seq![heads, queries, keys]);
        let total: usize = match checked_num_elements(&shape) {
            Ok(total) => total,
            Err(e) => {
                return Err(e);
            },
        };
        proof {
            lemma_size_three(heads, queries, keys);
            assert(q.shape@ =~= seq![heads, queries, head_dim]);
            lemma_size_three(heads, queries, head_dim);
            assert(k_t.shape@ =~= seq![heads, head_dim, keys]);
            lemma_size_three(heads, head_dim, keys);
            assert(heads * head_dim * keys == heads * (head_dim * keys)) by (nonlinear_arith);
            crate::tensor::shape::lemma_fits_take(shape@, 2);
            assert(shape@.take(2) =~= seq![heads, queries]);
            lemma_size_two(heads, queries);
        }
        let scores: Vec<T> = chunked_product(
            &q.data,
            &k_t.data,
            heads,
            queries,
            head_dim,
            keys,
            total,
            usize::MAX,
            &score,
        );
        let rows: usize = heads * queries;
        let data: Vec<T> = finish_rows(
            &scores,
            mask,
            rows,
            heads,
            queries,
            keys,
            &plus,
            &softmax,
        );
        proof {
            assert(is_chunked_product(
                score,
                q.data,
                k_t.data,
                heads as int,
                queries as int,
                head_dim as int,
                keys as int,
                usize::MAX as int,
                scores@,
            ));
            assert(are_attention_rows(
                scores@,
                mask,
                heads * queries,
                queries as int,
                keys as int,
                plus,
                softmax,
                data@,
            ));
            assert(are_probabilities(*q, *k_t, mask, score, plus, softmax, data@));
        }
        Ok(CpuTensor { data, shape })
    }
}

// ---------------------------------------------------------------------------
// Depthwise convolution
// ---------------------------------------------------------------------------
/// What is wrong with the arguments of a depthwise convolution.
pub open spec fn conv_error(
    input: Seq<usize>,
    kernel: Seq<usize>,
    bias: Option<Seq<usize>>,
    stride: nat,
) -> Option<Seq<char>> {
    if stride == 0 {
        Some("conv1d_dw requires stride > 0"@)
    } else if input.len() != 2 {
        Some("conv1d_dw expects input shape [time, channels], got "@ + list_text(input))
    } else if kernel.len() != 2 {
        Some("conv1d_dw kernel must have shape [channels, kernel_size], got "@ + list_text(kernel))
    } else if input[1] != kernel[0] {
        Some(
            "conv1d_dw channel mismatch: input "@ + list_text(input) + ", kernel "@ + list_text(
                kernel,
            ),
        )
    } else if kernel[1] == 0 {
        Some("conv1d_dw kernel size must be greater than zero"@)
    } else if bias is Some && bias->0 != seq![input[1]] {
        Some(
            "conv1d_dw bias must have shape ["@ + decimal(input[1] as nat) + "], got "@ + list_text(
                bias->0,
            ),
        )
    } else {
        None
    }
}

/// Checks the arguments of a depthwise convolution.
pub fn check_conv(
    input: &[usize],
    kernel: &[usize],
    bias: Option<&Vec<usize>>,
    stride: usize,
) -> (r: Result<(), Error>)
    ensures
        match r {
            Ok(_) => conv_error(input@, kernel@, sizes_view(bias), stride as nat) is None,
            Err(e) => conv_error(input@, kernel@, sizes_view(bias), stride as nat) == Some(e@),
        },
{
    if stride == 0 {
        return Err(Error::message("conv1d_dw requires stride > 0"));
    }
    if input.len() != 2 {
        let mut text = String::from_str("conv1d_dw expects input shape [time, channels], got ");
        push_list(&mut text, input);
        return Err(Error::from_text(text));
    }
    if kernel.len() != 2 {
        let mut text = String::from_str(
            "conv1d_dw kernel must have shape [channels, kernel_size], got ",
        );
        push_list(&mut text, kernel);
        return Err(Error::from_text(text));
    }
    if input[1] != kernel[0] {
        let mut text = String::from_str("conv1d_dw channel mismatch: input ");
        push_list(&mut text, input);
        text.append(", kernel ");
        push_list(&mut text, kernel);
        return Err(Error::from_text(text));
    }
    if kernel[1] == 0 {
        return Err(Error::message("conv1d_dw kernel size must be greater than zero"));
    }
    if let Some(b) = bias {
        if !(b.len() == 1 && b[0] == input[1]) {
            let mut text = String::from_str("conv1d_dw bias must have shape [");
            push_decimal(&mut text, input[1] as u64);
            text.append("], got ");
            push_list(&mut text, b);
            assert(b@ != seq![input@[1]]);
            return Err(Error::from_text(text));
        }
        assert(b@ =~= seq![input@[1]]);
    }
    Ok(())
}

/// The length of the input with padding on both sides.
pub open spec fn padded_time(time: int, padding: int) -> int {
    least(usize::MAX as int, time + 2 * padding)
}

/// The number of positions at which the kernel fits.
pub open spec fn conv_time(time: int, size: int, stride: int, padding: int) -> int {
    if padded_time(time, padding) < size {
        0
    } else {
        (padded_time(time, padding) - size) / stride + 1
    }
}

/// Counts the positions at which the kernel fits.
pub fn count_positions(time: usize, size: usize, stride: usize, padding: usize) -> (n: usize)
    requires
        stride > 0,
        size > 0,
    ensures
        n == conv_time(time as int, size as int, stride as int, padding as int),
{
    let padded: usize = time.saturating_add(padding).saturating_add(padding);
    assert(padded == padded_time(time as int, padding as int));
    if padded < size {
        0
    } else {
        proof {
            let d = padded - size;
            assert(d / (stride as int) <= d && 0 <= d / (stride as int)) by (nonlinear_arith)
                requires
                    d >= 0,
                    stride >= 1,
            ;
        }
        (padded - size) / stride + 1
    }
}

/// `value` is what `mac` can make of `before` by taking in weight `k` of a channel
/// with the input it stands on, or `before` where it stands on the padding.
pub open spec fn is_weight_taken<T, M: Fn(T, T, T) -> T>(
    input: CpuTensor<T>,
    kernel: CpuTensor<T>,
    mac: M,
    offset: int,
    channel: int,
    k: int,
    before: T,
    value: T,
) -> bool {
    if 0 <= offset + k < input.shape@[0] {
        call_ensures(
            mac,
            (
                before,
                input.data@[(offset + k) * input.shape@[1] + channel],
                kernel.data@[channel * kernel.shape@[1] + k],
            ),
            value,
        )
    } else {
        value == before
    }
}

/// `sums` begins with `start` and goes on with what `mac` can make of it by taking
/// in the weights of a channel in order, with the first weight on input `offset`.
pub open spec fn are_partial_sums<T, M: Fn(T, T, T) -> T>(
    input: CpuTensor<T>,
    kernel: CpuTensor<T>,
    mac: M,
    start: T,
    offset: int,
    channel: int,
    sums: Seq<T>,
) -> bool {
    &&& sums.len() > 0
    &&& sums[0] == start
    &&& forall|k: int|
        0 <= k < sums.len() - 1 ==> #[trigger] is_weight_taken(
            input,
            kernel,
            mac,
            offset,
            channel,
            k,
            sums[k],
            sums[k + 1],
        )
}

/// `value` is what `mac` can make of `start` by taking in all weights of a channel.
pub open spec fn is_weighted_sum<T, M: Fn(T, T, T) -> T>(
    input: CpuTensor<T>,
    kernel: CpuTensor<T>,
    mac: M,
    start: T,
    offset: int,
    channel: int,
    value: T,
) -> bool {
    exists|sums: Seq<T>| #[trigger]
        are_partial_sums(input, kernel, mac, start, offset, channel, sums) && sums.len()
            == kernel.shape@[1] + 1 && sums.last() == value
}

/// The bias of a channel, or `zero` where there is none.
pub open spec fn bias_at<T>(bias: Option<&CpuTensor<T>>, zero: T, channel: int) -> T {
    match bias {
        Some(b) => b.data@[channel],
        None => zero,
    }
}

/// Element `i` of the result is the sum for its position and channel.
pub open spec fn is_conv_value<T, M: Fn(T, T, T) -> T>(
    input: CpuTensor<T>,
    kernel: CpuTensor<T>,
    bias: Option<&CpuTensor<T>>,
    stride: int,
    padding: int,
    zero: T,
    mac: M,
    i: int,
    value: T,
) -> bool {
    let channels = input.shape@[1] as int;
    is_weighted_sum(
        input,
        kernel,
        mac,
        bias_at(bias, zero, i % channels),
        i / channels * stride - padding,
        i % channels,
        value,
    )
}

fn weighted_sum<T: Copy, M: Fn(T, T, T) -> T>(
    input: &CpuTensor<T>,
    kernel: &CpuTensor<T>,
    mac: &M,
    start: T,
    first: usize,
    padding: usize,
    channel: usize,
) -> (value: T)
    requires
        input.well_formed(),
        kernel.well_formed(),
        input.shape.len() == 2,
        kernel.shape.len() == 2,
        channel < input.shape@[1],
        input.shape@[1] == kernel.shape@[0],
        first + kernel.shape@[1] <= usize::MAX,
        forall|a: T, x: T, y: T| call_requires(*mac, (a, x, y)),
    ensures
        is_weighted_sum(
            *input,
            *kernel,
            *mac,
            start,
            first - padding,
            channel as int,
            value,
        ),
{
    let time: usize = input.shape[0];
    let channels: usize = input.shape[1];
    let size: usize = kernel.shape[1];
    let mut value: T = start;
    let mut n: usize = 0;
    let ghost mut sums = seq![start];
    proof {
        assert(input.shape@ =~= seq![time, channels]);
        assert(kernel.shape@ =~= seq![channels, size]);
        lemma_size_two(time, channels);
        lemma_size_two(channels, size);
    }
    while n < size
        invariant
            n <= size,
            time == input.shape@[0],
            channels == input.shape@[1],
            size == kernel.shape@[1],
            channel < channels,
            input.data.len() == time * channels,
            kernel.data.len() == channels * size,
            first + size <= usize::MAX,
            forall|a: T, x: T, y: T| call_requires(*mac, (a, x, y)),
            sums.len() == n + 1,
            sums.last() == value,
            are_partial_sums(
                *input,
                *kernel,
                *mac,
                start,
                first - padding,
                channel as int,
                sums,
            ),
        decreases size - n,
    {
        let ghost before = value;
        if first + n >= padding && first + n - padding < time {
            let t: usize = first + n - padding;
            proof {
                assert(t * channels + channel < time * channels && 0 <= t * channels)
                    by (nonlinear_arith)
                    requires
                        0 <= t,
                        t + 1 <= time,
                        0 <= channel,
                        channel < channels,
                ;
                assert(channel * size + n < channels * size && 0 <= channel * size)
                    by (nonlinear_arith)
                    requires
                        0 <= channel,
                        channel + 1 <= channels,
                        0 <= n,
                        n < size,
                ;
            }
            value = mac(value, input.data[t * channels + channel], kernel.data[channel * size + n]);
        }
        proof {
            let offset = first - padding;
            assert(is_weight_taken(
                *input,
                *kernel,
                *mac,
                offset,
                channel as int,
                n as int,
                before,
                value,
            ));
            let longer = sums.push(value);
            assert forall|k: int| 0 <= k < longer.len() - 1 implies #[trigger] is_weight_taken(
                *input,
                *kernel,
                *mac,
                offset,
                channel as int,
                k,
                longer[k],
                longer[k + 1],
            ) by {
                if k < n {
                    assert(is_weight_taken(
                        *input,
                        *kernel,
                        *mac,
                        offset,
                        channel as int,
                        k,
                        sums[k],
                        sums[k + 1],
                    ));
                }
            }
            sums = longer;
        }
        n += 1;
    }
    value
}

impl<T: Copy> CpuTensor<T> {
    /// Convolves every channel of a `[time, channels]` input with its own row of
    /// the kernel.
    pub fn conv1d_dw<M: Fn(T, T, T) -> T>(
        &self,
        kernel: &CpuTensor<T>,
        bias: Option<&CpuTensor<T>>,
        stride: usize,
        padding: usize,
        zero: T,
        mac: M,
    ) -> (r: Result<CpuTensor<T>, Error>)
        requires
            self.well_formed(),
            kernel.well_formed(),
            bias is Some ==> bias->0.well_formed(),
            conv_error(self.shape@, kernel.shape@, bias_shape(bias), stride as nat) is None
                ==> conv_time(
                self.shape@[0] as int,
                kernel.shape@[1] as int,
                stride as int,
                padding as int,
            ) * self.shape@[1] <= usize::MAX,
            forall|a: T, x: T, y: T| call_requires(mac, (a, x, y)),
        ensures
            match r {
                Ok(t) => {
                    &&& conv_error(self.shape@, kernel.shape@, bias_shape(bias), stride as nat) is None
                    &&& t.well_formed()
                    &&& t.shape.len() == 2
                    &&& t.shape@[0] == conv_time(
                        self.shape@[0] as int,
                        kernel.shape@[1] as int,
                        stride as int,
                        padding as int,
                    )
                    &&& t.shape@[1] == self.shape@[1]
                    &&& forall|i: int|
                        0 <= i < t.data.len() ==> is_conv_value(
                            *self,
                            *kernel,
                            bias,
                            stride as int,
                            padding as int,
                            zero,
                            mac,
                            i,
                            #[trigger] t.data@[i],
                        )
                },
                Err(e) => conv_error(self.shape@, kernel.shape@, bias_shape(bias), stride as nat)
                    == Some(e@),
            },
    {
        if let Err(e) = check_conv(&self.shape, &kernel.shape, shape_of(bias), stride) {
            return Err(e);
        }
        let time: usize = self.shape[0];
        let channels: usize = self.shape[1];
        let size: usize = kernel.shape[1];
        let out_time: usize = count_positions(time, size, stride, padding);
        let total: usize = out_time * channels;
        let mut shape: Vec<usize> = Vec::new();
        shape.push(out_time);
        shape.push(channels);
        proof {
            assert(shape@ =~= seq![out_time, channels]);
            lemma_size_two(out_time, channels);
            if let Some(b) = bias {
                lemma_size_one(channels);
            }
        }
        let mut data: Vec<T> = Vec::new();
        let mut i: usize = 0;
        while i < total
            invariant
                i <= total,
                total == out_time * channels,
                self.well_formed(),
                kernel.well_formed(),
                self.shape.len() == 2,
                kernel.shape.len() == 2,
                time == self.shape@[0],
                channels == self.shape@[1],
                channels == kernel.shape@[0],
                size == kernel.shape@[1],
                size > 0,
                stride > 0,
                bias is Some ==> bias->0.data.len() == channels,
                out_time == conv_time(time as int, size as int, stride as int, padding as int),
                forall|a: T, x: T, y: T| call_requires(mac, (a, x, y)),
                data.len() == i,
                forall|j: int|
                    0 <= j < i ==> is_conv_value(
                        *self,
                        *kernel,
                        bias,
                        stride as int,
                        padding as int,
                        zero,
                        mac,
                        j,
                        #[trigger] data@[j],
                    ),
            decreases total - i,
        {
            proof {
                assert(channels > 0) by (nonlinear_arith)
                    requires
                        0 <= i < out_time * channels,
                        channels >= 0,
                        out_time >= 0,
                ;
            }
            let t: usize = i / channels;
            let channel: usize = i % channels;
            proof {
                assert(t < out_time) by (nonlinear_arith)
                    requires
                        t == i / channels,
                        0 <= i < out_time * channels,
                        channels > 0,
                ;
                let d = padded_time(time as int, padding as int) - size;
                assert(t * stride <= d && 0 <= t * stride) by (nonlinear_arith)
                    requires
                        0 <= t <= d / (stride as int),
                        stride > 0,
                        d >= 0,
                ;
            }
            let start: T = match bias {
                Some(b) => b.data[channel],
                None => zero,
            };
            let value: T = weighted_sum(self, kernel, &mac, start, t * stride, padding, channel);
            data.push(value);
            i += 1;
        }
        Ok(CpuTensor { data, shape })
    }
}

} // verus!
