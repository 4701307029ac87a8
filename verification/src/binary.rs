//! Binary kernels: elementwise operations with broadcasting, and the matrix
//! product. The arithmetic on elements is the caller's; the layout is ours.
use vstd::prelude::*;
use crate::kernels::{fold_left, is_fold, num_elements_of, strided_offset, unravel_index};
use crate::shape::{
    dot, isize_ints, lemma_dot_le_extent, lemma_dot_nonneg, lemma_size_positive,
    lemma_unravel_bounds, shape_size, size_fits, unravel, usize_ints, view_fits,
};

verus! {

/// Dimension `d` of `dims` once it is aligned at its last axis with a shape of
/// rank `n` (missing leading axes count as 1).
pub open spec fn aligned_dim(dims: Seq<usize>, n: int, d: int) -> usize {
    if d >= n - dims.len() {
        dims[d - (n - dims.len())]
    } else {
        1
    }
}

/// The rank of the broadcast of two shapes.
pub open spec fn broadcast_rank(a: Seq<usize>, b: Seq<usize>) -> int {
    if a.len() >= b.len() {
        a.len() as int
    } else {
        b.len() as int
    }
}

/// Two shapes broadcast together: aligned at their last axes, each pair of
/// dimensions is equal or one of them is 1.
pub open spec fn broadcastable(a: Seq<usize>, b: Seq<usize>) -> bool {
    let n = broadcast_rank(a, b);
    forall|d: int|
        0 <= d < n ==> {
            let x = #[trigger] aligned_dim(a, n, d);
            let y = aligned_dim(b, n, d);
            x == y || x == 1 || y == 1
        }
}

/// The shape of the broadcast of two shapes: on each aligned axis, the
/// dimension that is not 1.
pub open spec fn broadcast_dims(a: Seq<usize>, b: Seq<usize>) -> Seq<usize> {
    let n = broadcast_rank(a, b);
    Seq::new(
        n as nat,
        |d: int|
            if aligned_dim(a, n, d) == 1 {
                aligned_dim(b, n, d)
            } else {
                aligned_dim(a, n, d)
            },
    )
}

/// The coordinates in an operand of shape `dims` that output coordinates `c`
/// of a broadcast read: leading axes dropped, axes of size 1 pinned at 0.
pub open spec fn source_coords(c: Seq<int>, dims: Seq<usize>) -> Seq<int> {
    Seq::new(
        dims.len(),
        |e: int|
            if dims[e] == 1 {
                0
            } else {
                c[e + (c.len() - dims.len())]
            },
    )
}

/// The broadcast shape of two shapes.
pub fn broadcast_shape(a: &[usize], b: &[usize]) -> (out: Vec<usize>)
    requires
        broadcastable(a@, b@),
    ensures
        out@ == broadcast_dims(a@, b@),
{
    let n = if a.len() >= b.len() {
        a.len()
    } else {
        b.len()
    };
    let mut out: Vec<usize> = Vec::new();
    let mut d: usize = 0;
    while d < n
        invariant
            d <= n,
            n == broadcast_rank(a@, b@),
            out@ == broadcast_dims(a@, b@).take(d as int),
        decreases n - d,
    {
        let x = if d >= n - a.len() {
            a[d - (n - a.len())]
        } else {
            1
        };
        let y = if d >= n - b.len() {
            b[d - (n - b.len())]
        } else {
            1
        };
        out.push(if x == 1 { y } else { x });
        d = d + 1;
        assert(out@ =~= broadcast_dims(a@, b@).take(d as int));
    }
    assert(broadcast_dims(a@, b@).take(d as int) =~= broadcast_dims(a@, b@));
    out
}

/// Whether two shapes broadcast together.
pub fn can_broadcast(a: &[usize], b: &[usize]) -> (ok: bool)
    ensures
        ok == broadcastable(a@, b@),
{
    let n = if a.len() >= b.len() {
        a.len()
    } else {
        b.len()
    };
    let mut d: usize = 0;
    while d < n
        invariant
            d <= n,
            n == broadcast_rank(a@, b@),
            forall|e: int|
                0 <= e < d ==> {
                    let x = #[trigger] aligned_dim(a@, n as int, e);
                    let y = aligned_dim(b@, n as int, e);
                    x == y || x == 1 || y == 1
                },
        decreases n - d,
    {
        let x = if d >= n - a.len() {
            a[d - (n - a.len())]
        } else {
            1
        };
        let y = if d >= n - b.len() {
            b[d - (n - b.len())]
        } else {
            1
        };
        assert(x == aligned_dim(a@, n as int, d as int));
        assert(y == aligned_dim(b@, n as int, d as int));
        if !(x == y || x == 1 || y == 1) {
            return false;
        }
        d = d + 1;
    }
    true
}

fn source_index(c: &[usize], dims: &[usize]) -> (s: Vec<usize>)
    requires
        dims@.len() <= c@.len(),
    ensures
        usize_ints(s@) == source_coords(usize_ints(c@), dims@),
{
    let _clen = c.len();
    let shift = c.len() - dims.len();
    let mut s: Vec<usize> = Vec::new();
    let mut e: usize = 0;
    let ghost target = source_coords(usize_ints(c@), dims@);
    while e < dims.len()
        invariant
            e <= dims@.len(),
            _clen == c@.len(),
            shift == c@.len() - dims@.len(),
            target == source_coords(usize_ints(c@), dims@),
            usize_ints(s@) == target.take(e as int),
        decreases dims@.len() - e,
    {
        let v = if dims[e] == 1 {
            0
        } else {
            c[e + shift]
        };
        let ghost prev = s@;
        s.push(v);
        proof {
            assert(target[e as int] == v as int);
            assert(s@ =~= prev.push(v));
            assert(usize_ints(s@) =~= usize_ints(prev).push(v as int));
            assert(target.take(e + 1) =~= target.take(e as int).push(target[e as int]));
        }
        e = e + 1;
    }
    assert(target.take(e as int) =~= target);
    s
}

/// The offset in an operand of the element that output coordinates `c` of a
/// broadcast read.
pub open spec fn broadcast_offset(
    c: Seq<int>,
    dims: Seq<usize>,
    strides: Seq<isize>,
    base: int,
) -> int {
    base + dot(source_coords(c, dims), isize_ints(strides))
}

/// The source coordinates of an output element are inside the operand.
proof fn lemma_source_in_bounds(
    c: Seq<int>,
    out_dims: Seq<usize>,
    dims: Seq<usize>,
    other: Seq<usize>,
    strides: Seq<isize>,
    base: int,
    len: int,
)
    requires
        out_dims == broadcast_dims(dims, other) || out_dims == broadcast_dims(other, dims),
        broadcastable(dims, other),
        c.len() == out_dims.len(),
        forall|d: int| 0 <= d < c.len() ==> 0 <= #[trigger] c[d] < out_dims[d],
        view_fits(dims, strides, base, len),
    ensures
        0 <= dot(source_coords(c, dims), isize_ints(strides)),
        base + dot(source_coords(c, dims), isize_ints(strides)) < len,
{
    let n = c.len() as int;
    let sc = source_coords(c, dims);
    assert(n == broadcast_rank(dims, other));
    assert forall|e: int| 0 <= e < dims.len() implies 0 <= #[trigger] sc[e] < dims[e] by {
        let d = e + (n - dims.len());
        assert(aligned_dim(dims, n, d) == dims[e]);
        let y = aligned_dim(other, n, d);
        assert(aligned_dim(dims, n, d) == y || aligned_dim(dims, n, d) == 1 || y == 1);
        if dims[e] != 1 {
            assert(0 <= c[d] < out_dims[d]);
        }
    }
    assert forall|e: int| 0 <= e < dims.len() implies dims[e] > 0 by {
        assert(0 <= sc[e] < dims[e]);
    }
    lemma_size_positive(dims);
    lemma_dot_le_extent(sc, dims, strides);
    assert forall|e: int| 0 <= e < sc.len() implies sc[e] >= 0 && isize_ints(strides)[e] >= 0 by {
        assert(0 <= sc[e] < dims[e]);
    }
    lemma_dot_nonneg(sc, isize_ints(strides));
}

/// An elementwise operation with broadcasting: output element `k` (row-major
/// in the broadcast shape) is what `op` makes of the operands' elements that
/// its coordinates read.
pub fn broadcast_binary<T: Copy, F: Fn(T, T) -> T>(
    a: &[T],
    a_dims: &[usize],
    a_strides: &[isize],
    a_base: usize,
    b: &[T],
    b_dims: &[usize],
    b_strides: &[isize],
    b_base: usize,
    op: &F,
) -> (r: (Vec<usize>, Vec<T>))
    requires
        broadcastable(a_dims@, b_dims@),
        size_fits(broadcast_dims(a_dims@, b_dims@)),
        view_fits(a_dims@, a_strides@, a_base as int, a@.len() as int),
        view_fits(b_dims@, b_strides@, b_base as int, b@.len() as int),
        forall|x: T, y: T| #[trigger] op.requires((x, y)),
    ensures
        r.0@ == broadcast_dims(a_dims@, b_dims@),
        r.1@.len() == shape_size(r.0@),
        forall|k: int|
            0 <= k < r.1@.len() ==> op.ensures(
                (
                    a@[broadcast_offset(unravel(k, r.0@), a_dims@, a_strides@, a_base as int)],
                    b@[broadcast_offset(unravel(k, r.0@), b_dims@, b_strides@, b_base as int)],
                ),
                #[trigger] r.1@[k],
            ),
{
    let _alen = a.len();
    let _blen = b.len();
    let out_dims = broadcast_shape(a_dims, b_dims);
    let n = num_elements_of(out_dims.as_slice());
    let mut out: Vec<T> = Vec::new();
    let mut k: usize = 0;
    while k < n
        invariant
            k <= n,
            _alen == a@.len(),
            _blen == b@.len(),
            out_dims@ == broadcast_dims(a_dims@, b_dims@),
            n == shape_size(out_dims@),
            broadcastable(a_dims@, b_dims@),
            view_fits(a_dims@, a_strides@, a_base as int, a@.len() as int),
            view_fits(b_dims@, b_strides@, b_base as int, b@.len() as int),
            forall|x: T, y: T| #[trigger] op.requires((x, y)),
            out@.len() == k,
            forall|j: int|
                0 <= j < k ==> op.ensures(
                    (
                        a@[broadcast_offset(unravel(j, out_dims@), a_dims@, a_strides@, a_base as int)],
                        b@[broadcast_offset(unravel(j, out_dims@), b_dims@, b_strides@, b_base as int)],
                    ),
                    #[trigger] out@[j],
                ),
        decreases n - k,
    {
        let c = unravel_index(k, out_dims.as_slice());
        proof {
            lemma_unravel_bounds(k as int, out_dims@);
            let u = unravel(k as int, out_dims@);
            assert(out_dims@.len() == broadcast_rank(a_dims@, b_dims@));
            lemma_source_in_bounds(u, out_dims@, a_dims@, b_dims@, a_strides@, a_base as int, a@.len() as int);
            assert(broadcastable(b_dims@, a_dims@)) by {
                let nn = broadcast_rank(a_dims@, b_dims@);
                assert(broadcast_rank(b_dims@, a_dims@) == nn);
                assert forall|d: int| 0 <= d < nn implies {
                    let x = #[trigger] aligned_dim(b_dims@, nn, d);
                    let y = aligned_dim(a_dims@, nn, d);
                    x == y || x == 1 || y == 1
                } by {
                    assert(aligned_dim(a_dims@, nn, d) == aligned_dim(a_dims@, nn, d));
                }
            }
            lemma_source_in_bounds(u, out_dims@, b_dims@, a_dims@, b_strides@, b_base as int, b@.len() as int);
        }
        let sa = source_index(c.as_slice(), a_dims);
        let sb = source_index(c.as_slice(), b_dims);
        let oa = strided_offset(sa.as_slice(), a_strides, a_base);
        let ob = strided_offset(sb.as_slice(), b_strides, b_base);
        let v = op(a[oa], b[ob]);
        out.push(v);
        k = k + 1;
    }
    (out_dims, out)
}

/// Element `(i, j)` of a strided matrix.
pub open spec fn matrix_at<T>(data: Seq<T>, strides: Seq<isize>, base: int, i: int, j: int) -> T {
    data[base + dot(seq![i, j], isize_ints(strides))]
}

/// `p` holds the products, by `times`, of row `i` of `a` with column `j` of `b`,
/// term after term.
pub open spec fn row_col_products<T, M: Fn(T, T) -> T>(
    times: M,
    a: Seq<T>,
    a_strides: Seq<isize>,
    a_base: int,
    b: Seq<T>,
    b_strides: Seq<isize>,
    b_base: int,
    i: int,
    j: int,
    inner: int,
    p: Seq<T>,
) -> bool {
    &&& p.len() == inner
    &&& forall|kk: int|
        0 <= kk < inner ==> #[trigger] times.ensures(
            (matrix_at(a, a_strides, a_base, i, kk), matrix_at(b, b_strides, b_base, kk, j)),
            p[kk],
        )
}

/// `y` is entry `(i, j)` of the product: the fold by `combine`, from `zero`,
/// of the products by `times` of row `i` of `a` with column `j` of `b`.
pub open spec fn is_product_entry<T, M: Fn(T, T) -> T, A: Fn(T, T) -> T>(
    times: M,
    combine: A,
    zero: T,
    a: Seq<T>,
    a_strides: Seq<isize>,
    a_base: int,
    b: Seq<T>,
    b_strides: Seq<isize>,
    b_base: int,
    i: int,
    j: int,
    inner: int,
    y: T,
) -> bool {
    exists|p: Seq<T>|
        #[trigger] row_col_products(times, a, a_strides, a_base, b, b_strides, b_base, i, j, inner, p)
            && is_fold(combine, zero, p, y)
}

/// The matrix product of a strided `[m, inner]` matrix `a` and a strided
/// `[inner, n]` matrix `b`: entry `(i, j)` is the fold by `combine`, from `zero`, of
/// the products by `times` of row `i` of `a` with column `j` of `b`.
pub fn matmul_typed<T: Copy, M: Fn(T, T) -> T, A: Fn(T, T) -> T>(
    a: &[T],
    a_dims: &[usize],
    a_strides: &[isize],
    a_base: usize,
    b: &[T],
    b_dims: &[usize],
    b_strides: &[isize],
    b_base: usize,
    zero: T,
    times: &M,
    combine: &A,
) -> (out: Vec<Vec<T>>)
    requires
        a_dims@.len() == 2,
        b_dims@.len() == 2,
        a_dims@[1] == b_dims@[0],
        view_fits(a_dims@, a_strides@, a_base as int, a@.len() as int),
        view_fits(b_dims@, b_strides@, b_base as int, b@.len() as int),
        forall|x: T, y: T| #[trigger] times.requires((x, y)),
        forall|x: T, y: T| #[trigger] combine.requires((x, y)),
    ensures
        out@.len() == a_dims@[0],
        forall|i: int| 0 <= i < out@.len() ==> (#[trigger] out@[i])@.len() == b_dims@[1],
        forall|i: int, j: int|
            0 <= i < a_dims@[0] && 0 <= j < b_dims@[1] ==> is_product_entry(*times, *combine, zero, a@, a_strides@, a_base as int, b@, b_strides@, b_base as int, i, j, a_dims@[1] as int, #[trigger] out@[i]@[j]),
{
    let _alen = a.len();
    let _blen = b.len();
    let m = a_dims[0];
    let inner = a_dims[1];
    let n = b_dims[1];
    let mut out: Vec<Vec<T>> = Vec::new();
    let mut i: usize = 0;
    while i < m
        invariant
            i <= m,
            m == a_dims@[0],
            inner == a_dims@[1],
            n == b_dims@[1],
            a_dims@.len() == 2,
            b_dims@.len() == 2,
            a_dims@[1] == b_dims@[0],
            _alen == a@.len(),
            _blen == b@.len(),
            view_fits(a_dims@, a_strides@, a_base as int, a@.len() as int),
            view_fits(b_dims@, b_strides@, b_base as int, b@.len() as int),
            forall|x: T, y: T| #[trigger] times.requires((x, y)),
            forall|x: T, y: T| #[trigger] combine.requires((x, y)),
            out@.len() == i,
            forall|r: int| 0 <= r < i ==> (#[trigger] out@[r])@.len() == n,
            forall|r: int, j: int|
                0 <= r < i && 0 <= j < n ==> is_product_entry(*times, *combine, zero, a@, a_strides@, a_base as int, b@, b_strides@, b_base as int, r, j, inner as int, #[trigger] out@[r]@[j]),
        decreases m - i,
    {
        let mut row: Vec<T> = Vec::new();
        let mut j: usize = 0;
        while j < n
            invariant
                i < m,
                j <= n,
                m == a_dims@[0],
                inner == a_dims@[1],
                n == b_dims@[1],
                a_dims@.len() == 2,
                b_dims@.len() == 2,
                a_dims@[1] == b_dims@[0],
                _alen == a@.len(),
                _blen == b@.len(),
                view_fits(a_dims@, a_strides@, a_base as int, a@.len() as int),
                view_fits(b_dims@, b_strides@, b_base as int, b@.len() as int),
                forall|x: T, y: T| #[trigger] times.requires((x, y)),
                forall|x: T, y: T| #[trigger] combine.requires((x, y)),
                row@.len() == j,
                forall|jj: int|
                    0 <= jj < j ==> is_product_entry(*times, *combine, zero, a@, a_strides@, a_base as int, b@, b_strides@, b_base as int, i as int, jj, inner as int, #[trigger] row@[jj]),
            decreases n - j,
        {
            let mut products: Vec<T> = Vec::new();
            let mut kk: usize = 0;
            while kk < inner
                invariant
                    i < m,
                    j < n,
                    kk <= inner,
                    m == a_dims@[0],
                    inner == a_dims@[1],
                    n == b_dims@[1],
                    a_dims@.len() == 2,
                    b_dims@.len() == 2,
                    a_dims@[1] == b_dims@[0],
                    _alen == a@.len(),
                    _blen == b@.len(),
                    view_fits(a_dims@, a_strides@, a_base as int, a@.len() as int),
                    view_fits(b_dims@, b_strides@, b_base as int, b@.len() as int),
                    forall|x: T, y: T| #[trigger] times.requires((x, y)),
                    products@.len() == kk,
                    forall|q: int|
                        0 <= q < kk ==> #[trigger] times.ensures(
                            (
                                matrix_at(a@, a_strides@, a_base as int, i as int, q),
                                matrix_at(b@, b_strides@, b_base as int, q, j as int),
                            ),
                            products@[q],
                        ),
                decreases inner - kk,
            {
                let mut ca: Vec<usize> = Vec::new();
                ca.push(i);
                ca.push(kk);
                let mut cb: Vec<usize> = Vec::new();
                cb.push(kk);
                cb.push(j);
                proof {
                    assert(usize_ints(ca@) =~= seq![i as int, kk as int]);
                    assert(usize_ints(cb@) =~= seq![kk as int, j as int]);
                    lemma_matrix_offset_bounds(
                        seq![i as int, kk as int],
                        a_dims@,
                        a_strides@,
                        a_base as int,
                        a@.len() as int,
                    );
                    lemma_matrix_offset_bounds(
                        seq![kk as int, j as int],
                        b_dims@,
                        b_strides@,
                        b_base as int,
                        b@.len() as int,
                    );
                }
                let oa = strided_offset(ca.as_slice(), a_strides, a_base);
                let ob = strided_offset(cb.as_slice(), b_strides, b_base);
                let prod = times(a[oa], b[ob]);
                let ghost before = products@;
                products.push(prod);
                proof {
                    assert forall|q: int| 0 <= q < kk + 1 implies #[trigger] times.ensures(
                        (
                            matrix_at(a@, a_strides@, a_base as int, i as int, q),
                            matrix_at(b@, b_strides@, b_base as int, q, j as int),
                        ),
                        products@[q],
                    ) by {
                        if q < kk {
                            assert(products@[q] == before[q]);
                        }
                    }
                }
                kk = kk + 1;
            }
            let v = fold_left(products.as_slice(), zero, combine);
            let ghost prev_row = row@;
            row.push(v);
            proof {
                assert(row_col_products(
                    *times,
                    a@,
                    a_strides@,
                    a_base as int,
                    b@,
                    b_strides@,
                    b_base as int,
                    i as int,
                    j as int,
                    inner as int,
                    products@,
                ));
                assert forall|jj: int| 0 <= jj < j + 1 implies is_product_entry(*times, *combine, zero, a@, a_strides@, a_base as int, b@, b_strides@, b_base as int, i as int, jj, inner as int, #[trigger] row@[jj]) by {
                    if jj < j {
                        assert(row@[jj] == prev_row[jj]);
                    }
                }
            }
            j = j + 1;
        }
        let ghost prev_out = out@;
        out.push(row);
        proof {
            assert forall|r: int, jj: int|
                0 <= r < i + 1 && 0 <= jj < n implies is_product_entry(*times, *combine, zero, a@, a_strides@, a_base as int, b@, b_strides@, b_base as int, r, jj, inner as int, #[trigger] out@[r]@[jj]) by {
                if r < i {
                    assert(out@[r] == prev_out[r]);
                }
            }
            assert forall|r: int| 0 <= r < i + 1 implies (#[trigger] out@[r])@.len() == n by {
                if r < i {
                    assert(out@[r] == prev_out[r]);
                }
            }
        }
        i = i + 1;
    }
    out
}

/// Coordinates inside a fitting matrix view have in-bounds offsets.
proof fn lemma_matrix_offset_bounds(
    c: Seq<int>,
    dims: Seq<usize>,
    strides: Seq<isize>,
    base: int,
    len: int,
)
    requires
        c.len() == 2,
        dims.len() == 2,
        0 <= c[0] < dims[0],
        0 <= c[1] < dims[1],
        view_fits(dims, strides, base, len),
    ensures
        0 <= dot(c, isize_ints(strides)),
        base + dot(c, isize_ints(strides)) < len,
{
    assert forall|e: int| 0 <= e < 2 implies dims[e] > 0 by {
        assert(0 <= c[e] < dims[e]);
    }
    lemma_size_positive(dims);
    assert forall|d: int| 0 <= d < c.len() implies 0 <= #[trigger] c[d] < dims[d] by {
    }
    lemma_dot_le_extent(c, dims, strides);
    assert forall|e: int| 0 <= e < c.len() implies c[e] >= 0 && isize_ints(strides)[e] >= 0 by {
    }
    lemma_dot_nonneg(c, isize_ints(strides));
}

/// A shape broadcasts with itself, to itself.
pub proof fn lemma_broadcast_self(a: Seq<usize>)
    ensures
        broadcastable(a, a),
        broadcast_dims(a, a) == a,
{
    let n = broadcast_rank(a, a);
    assert forall|d: int| 0 <= d < n implies aligned_dim(a, n, d) == a[d] by {}
    assert(broadcast_dims(a, a) =~= a);
}

/// A scalar broadcasts with any shape, to that shape.
pub proof fn lemma_broadcast_scalar(a: Seq<usize>)
    ensures
        broadcastable(a, Seq::empty()),
        broadcast_dims(a, Seq::empty()) == a,
        broadcastable(Seq::empty(), a),
        broadcast_dims(Seq::empty(), a) == a,
{
    let n = a.len() as int;
    assert forall|d: int| 0 <= d < n implies aligned_dim(a, n, d) == a[d] && aligned_dim(
        Seq::<usize>::empty(),
        n,
        d,
    ) == 1 by {}
    assert(broadcast_dims(a, Seq::empty()) =~= a);
    assert(broadcast_dims(Seq::empty(), a) =~= a);
}

/// Between operands of one shape, broadcasting reads each operand's element
/// `k` for output element `k`: the operation is plain elementwise.
pub proof fn lemma_broadcast_same_shape(
    dims: Seq<usize>,
    strides: Seq<isize>,
    base: int,
    k: int,
)
    requires
        0 <= k < shape_size(dims),
    ensures
        broadcast_offset(unravel(k, dims), dims, strides, base) == base + crate::shape::view_offset(
            dims,
            strides,
            k,
        ),
{
    lemma_unravel_bounds(k, dims);
    let c = unravel(k, dims);
    assert(source_coords(c, dims) =~= c) by {
        assert forall|e: int| 0 <= e < dims.len() implies source_coords(c, dims)[e] == c[e] by {
            if dims[e] == 1 {
                assert(0 <= c[e] < 1);
            }
        }
    }
}

} // verus!
