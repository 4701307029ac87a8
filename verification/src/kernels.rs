//! The index arithmetic of the CPU kernels: walking a strided view in row-major
//! order, filling it, gathering its elements, and gathering the elements that a
//! reduction along one axis combines.
use vstd::prelude::*;
use crate::shape::{
    dot, isize_ints, lemma_dot_prefix, lemma_dot_step, lemma_size_positive, lemma_view_offset_bounds,
    nonneg_strides, shape_size, size_fits, unravel, usize_ints, view_fits, view_offset, view_offsets, max_extent_terms, lemma_unravel_bounds,
    lemma_dot_le_extent, lemma_dot_nonneg, lemma_index_quotient,
};

verus! {

/// One step of peeling the last coordinate off a linear index.
proof fn lemma_unravel_step(k: int, dims: Seq<usize>, d: int)
    requires
        0 < d <= dims.len(),
        0 <= k < shape_size(dims.take(d)),
    ensures
        dims[d - 1] > 0,
        0 <= k / (dims[d - 1] as int) < shape_size(dims.take(d - 1)),
        unravel(k, dims.take(d)) == unravel(k / (dims[d - 1] as int), dims.take(d - 1)).push(
            k % (dims[d - 1] as int),
        ),
{
    let t = dims.take(d);
    assert(t.drop_last() =~= dims.take(d - 1));
    assert(t.last() == dims[d - 1]);
    let a = shape_size(dims.take(d - 1)) as int;
    let l = dims[d - 1] as int;
    assert(shape_size(t) == a * l);
    lemma_index_quotient(k, a, l);
}

/// The number of elements of a shape given by its dimensions.
pub fn num_elements_of(dims: &[usize]) -> (n: usize)
    requires
        size_fits(dims@),
    ensures
        n == shape_size(dims@),
{
    let mut n: usize = 1;
    let mut i: usize = 0;
    while i < dims.len()
        invariant
            0 <= i <= dims@.len(),
            n == shape_size(dims@.take(i as int)),
            size_fits(dims@),
        decreases dims@.len() - i,
    {
        assert(dims@.take(i + 1).drop_last() =~= dims@.take(i as int));
        assert(shape_size(dims@.take(i + 1)) <= usize::MAX);
        n = n * dims[i];
        i = i + 1;
    }
    assert(dims@.take(i as int) =~= dims@);
    n
}

/// The row-major coordinates of element `i` of a shape.
pub fn unravel_index(i: usize, dims: &[usize]) -> (coords: Vec<usize>)
    requires
        i < shape_size(dims@),
    ensures
        usize_ints(coords@) == unravel(i as int, dims@),
{
    let n = dims.len();
    let mut coords: Vec<usize> = Vec::new();
    let mut z: usize = 0;
    while z < n
        invariant
            z <= n,
            coords@.len() == z,
        decreases n - z,
    {
        coords.push(0);
        z = z + 1;
    }
    let mut temp: usize = i;
    let mut d: usize = n;
    assert(dims@.take(n as int) =~= dims@);
    assert(usize_ints(coords@.skip(n as int)) =~= Seq::<int>::empty());
    assert(unravel(i as int, dims@) =~= unravel(temp as int, dims@.take(d as int)) + usize_ints(
        coords@.skip(d as int),
    ));
    while d > 0
        invariant
            d <= n,
            n == dims@.len(),
            n == coords@.len(),
            temp < shape_size(dims@.take(d as int)),
            unravel(i as int, dims@) == unravel(temp as int, dims@.take(d as int)) + usize_ints(
                coords@.skip(d as int),
            ),
        decreases d,
    {
        proof {
            lemma_unravel_step(temp as int, dims@, d as int);
        }
        let ghost old_temp: int = temp as int;
        let ghost old_coords = coords@;
        let dim = dims[d - 1];
        coords.set(d - 1, temp % dim);
        temp = temp / dim;
        d = d - 1;
        proof {
            assert(usize_ints(coords@.skip(d as int)) =~= seq![old_temp % (dim as int)]
                + usize_ints(old_coords.skip(d + 1)));
            assert(unravel(old_temp, dims@.take(d + 1)) == unravel(
                temp as int,
                dims@.take(d as int),
            ).push(old_temp % (dim as int)));
            assert(unravel(temp as int, dims@.take(d as int)).push(old_temp % (dim as int))
                + usize_ints(old_coords.skip(d + 1)) =~= unravel(temp as int, dims@.take(d as int))
                + usize_ints(coords@.skip(d as int)));
        }
    }
    assert(dims@.take(0) =~= Seq::<usize>::empty());
    assert(unravel(temp as int, dims@.take(0)) =~= Seq::<int>::empty());
    assert(coords@.skip(0) =~= coords@);
    assert(usize_ints(coords@) =~= unravel(i as int, dims@));
    coords
}

/// The offset `base + Σ coords[d] * strides[d]` of a coordinate in a strided view.
pub fn strided_offset(coords: &[usize], strides: &[isize], base: usize) -> (off: usize)
    requires
        coords@.len() == strides@.len(),
        nonneg_strides(strides@),
        base + dot(usize_ints(coords@), isize_ints(strides@)) <= usize::MAX,
    ensures
        off == base + dot(usize_ints(coords@), isize_ints(strides@)),
{
    let ghost c = usize_ints(coords@);
    let ghost s = isize_ints(strides@);
    assert forall|e: int| 0 <= e < c.len() implies c[e] >= 0 && s[e] >= 0 by {
        assert(strides@[e] >= 0);
    }
    let mut off: usize = base;
    let mut d: usize = 0;
    assert(c.take(0) =~= Seq::<int>::empty());
    while d < coords.len()
        invariant
            d <= coords@.len(),
            coords@.len() == strides@.len(),
            c == usize_ints(coords@),
            s == isize_ints(strides@),
            forall|e: int| 0 <= e < c.len() ==> c[e] >= 0 && s[e] >= 0,
            base + dot(c, s) <= usize::MAX,
            off == base + dot(c.take(d as int), s.take(d as int)),
        decreases coords@.len() - d,
    {
        proof {
            lemma_dot_step(c, s, d as int);
            lemma_dot_prefix(c, s, d + 1);
            lemma_dot_prefix(c, s, d as int);
            assert(c[d as int] * s[d as int] >= 0) by (nonlinear_arith)
                requires
                    c[d as int] >= 0,
                    s[d as int] >= 0,
            ;
        }
        let step = strides[d] as usize;
        let term = coords[d] * step;
        off = off + term;
        d = d + 1;
    }
    assert(c.take(d as int) =~= c);
    assert(s.take(d as int) =~= s);
    off
}

/// Whether a strided view fits in `len` elements of storage: it has one stride
/// per axis, no negative stride, and its farthest element lies before `len`.
pub fn view_in_bounds(dims: &[usize], strides: &[isize], base: usize, len: usize) -> (ok: bool)
    ensures
        ok == view_fits(dims@, strides@, base as int, len as int),
{
    if dims.len() != strides.len() {
        return false;
    }
    let n = dims.len();
    let mut d: usize = 0;
    while d < n
        invariant
            d <= n,
            n == dims@.len(),
            n == strides@.len(),
            forall|e: int| 0 <= e < d ==> strides@[e] >= 0,
        decreases n - d,
    {
        if strides[d] < 0 {
            return false;
        }
        d = d + 1;
    }
    d = 0;
    while d < n
        invariant
            d <= n,
            n == dims@.len(),
            n == strides@.len(),
            nonneg_strides(strides@),
            forall|e: int| 0 <= e < d ==> dims@[e] > 0,
        decreases n - d,
    {
        if dims[d] == 0 {
            proof {
                lemma_size_positive(dims@);
            }
            return true;
        }
        d = d + 1;
    }
    proof {
        lemma_size_positive(dims@);
        assert(shape_size(dims@) > 0);
    }
    let ghost c = max_extent_terms(dims@);
    let ghost s = isize_ints(strides@);
    assert forall|e: int| 0 <= e < c.len() implies c[e] >= 0 && s[e] >= 0 by {
        assert(dims@[e] > 0);
        assert(strides@[e] >= 0);
    }
    let mut acc: usize = base;
    d = 0;
    assert(c.take(0) =~= Seq::<int>::empty());
    while d < n
        invariant
            d <= n,
            n == dims@.len(),
            n == strides@.len(),
            c == max_extent_terms(dims@),
            s == isize_ints(strides@),
            nonneg_strides(strides@),
            shape_size(dims@) > 0,
            forall|e: int| 0 <= e < c.len() ==> c[e] >= 0 && s[e] >= 0,
            acc == base + dot(c.take(d as int), s.take(d as int)),
        decreases n - d,
    {
        proof {
            lemma_dot_step(c, s, d as int);
            lemma_dot_prefix(c, s, d + 1);
            lemma_dot_prefix(c, s, d as int);
        }
        let step = strides[d] as usize;
        match (dims[d] - 1).checked_mul(step) {
            None => {
                proof {
                    assert(c[d as int] * s[d as int] > usize::MAX);
                    assert(dot(c, s) > usize::MAX);
                    assert(c == max_extent_terms(dims@));
                    assert(shape_size(dims@) > 0);
                }
                return false;
            },
            Some(term) => {
                match acc.checked_add(term) {
                    None => {
                        proof {
                            assert(dot(c, s) >= dot(c.take(d + 1), s.take(d + 1)));
                            assert(c == max_extent_terms(dims@));
                            assert(shape_size(dims@) > 0);
                        }
                        return false;
                    },
                    Some(next) => {
                        acc = next;
                    },
                }
            },
        }
        d = d + 1;
    }
    assert(c.take(d as int) =~= c);
    assert(s.take(d as int) =~= s);
    acc < len
}

/// The storage offsets of the elements of a strided view, in the row-major
/// order in which the kernels visit them.
pub fn strided_loop(dims: &[usize], strides: &[isize], base: usize) -> (offsets: Vec<usize>)
    requires
        view_fits(dims@, strides@, base as int, usize::MAX as int + 1),
        size_fits(dims@),
    ensures
        offsets@.len() == shape_size(dims@),
        forall|k: int|
            0 <= k < offsets@.len() ==> #[trigger] offsets@[k] == base + view_offset(
                dims@,
                strides@,
                k,
            ),
{
    let n = num_elements_of(dims);
    let mut offsets: Vec<usize> = Vec::new();
    let mut k: usize = 0;
    while k < n
        invariant
            k <= n,
            n == shape_size(dims@),
            view_fits(dims@, strides@, base as int, usize::MAX as int + 1),
            offsets@.len() == k,
            forall|j: int|
                0 <= j < k ==> #[trigger] offsets@[j] == base + view_offset(dims@, strides@, j),
        decreases n - k,
    {
        proof {
            lemma_view_offset_bounds(dims@, strides@, base as int, usize::MAX as int + 1, k as int);
        }
        let coords = unravel_index(k, dims);
        let off = strided_offset(coords.as_slice(), strides, base);
        offsets.push(off);
        k = k + 1;
    }
    offsets
}

/// Writes `value` at every element of a strided view of `data`, and nowhere else.
pub fn fill<T: Copy>(data: &mut Vec<T>, dims: &[usize], strides: &[isize], base: usize, value: T)
    requires
        view_fits(dims@, strides@, base as int, old(data)@.len() as int),
        size_fits(dims@),
    ensures
        final(data)@.len() == old(data)@.len(),
        forall|j: int|
            0 <= j < old(data)@.len() ==> #[trigger] final(data)@[j] == if view_offsets(
                dims@,
                strides@,
                base as int,
            ).contains(j) {
                value
            } else {
                old(data)@[j]
            },
{
    let ghost vo = view_offsets(dims@, strides@, base as int);
    let _len = data.len();
    assert(view_fits(dims@, strides@, base as int, usize::MAX as int + 1));
    let offsets = strided_loop(dims, strides, base);
    proof {
        assert forall|k: int| 0 <= k < offsets@.len() implies offsets@[k] < old(data)@.len() by {
            lemma_view_offset_bounds(dims@, strides@, base as int, old(data)@.len() as int, k);
        }
    }
    let mut i: usize = 0;
    while i < offsets.len()
        invariant
            i <= offsets@.len(),
            offsets@.len() == vo.len(),
            vo == view_offsets(dims@, strides@, base as int),
            forall|k: int| 0 <= k < offsets@.len() ==> #[trigger] offsets@[k] == vo[k],
            forall|k: int| 0 <= k < offsets@.len() ==> offsets@[k] < old(data)@.len(),
            data@.len() == old(data)@.len(),
            forall|j: int|
                0 <= j < old(data)@.len() ==> #[trigger] data@[j] == if vo.take(i as int).contains(
                    j,
                ) {
                    value
                } else {
                    old(data)@[j]
                },
        decreases offsets@.len() - i,
    {
        let off = offsets[i];
        data.set(off, value);
        proof {
            assert forall|j: int| 0 <= j < old(data)@.len() implies #[trigger] data@[j] == if vo.take(
                i + 1,
            ).contains(j) {
                value
            } else {
                old(data)@[j]
            } by {
                if vo.take(i + 1).contains(j) && j != off {
                    let w = choose|w: int| 0 <= w < i + 1 && #[trigger] vo.take(i + 1)[w] == j;
                    assert(vo.take(i as int)[w] == j);
                }
                if vo.take(i as int).contains(j) {
                    let w = choose|w: int| 0 <= w < i && #[trigger] vo.take(i as int)[w] == j;
                    assert(vo.take(i + 1)[w] == j);
                }
                if j == off {
                    assert(vo.take(i + 1)[i as int] == j);
                }
            }
        }
        i = i + 1;
    }
    assert(vo.take(i as int) =~= vo);
}

/// The elements of a strided view of `data`, in row-major order (the order in
/// which a full reduction accumulates them).
pub fn gather_strided<T: Copy>(data: &[T], dims: &[usize], strides: &[isize], base: usize) -> (out:
    Vec<T>)
    requires
        view_fits(dims@, strides@, base as int, data@.len() as int),
        size_fits(dims@),
    ensures
        out@.len() == shape_size(dims@),
        forall|k: int|
            0 <= k < out@.len() ==> #[trigger] out@[k] == data@[base + view_offset(
                dims@,
                strides@,
                k,
            )],
{
    let _len = data.len();
    let n = num_elements_of(dims);
    let mut out: Vec<T> = Vec::new();
    let mut k: usize = 0;
    while k < n
        invariant
            k <= n,
            n == shape_size(dims@),
            view_fits(dims@, strides@, base as int, data@.len() as int),
            _len == data@.len(),
            out@.len() == k,
            forall|j: int|
                0 <= j < k ==> #[trigger] out@[j] == data@[base + view_offset(dims@, strides@, j)],
        decreases n - k,
    {
        proof {
            lemma_view_offset_bounds(dims@, strides@, base as int, data@.len() as int, k as int);
        }
        let coords = unravel_index(k, dims);
        let off = strided_offset(coords.as_slice(), strides, base);
        out.push(data[off]);
        k = k + 1;
    }
    out
}

/// The dimensions that remain after reducing along `axis`.
pub fn reduced_dims(dims: &[usize], axis: usize) -> (out: Vec<usize>)
    requires
        axis < dims@.len(),
    ensures
        out@ == dims@.remove(axis as int),
{
    let mut out: Vec<usize> = Vec::new();
    let mut d: usize = 0;
    while d < dims.len()
        invariant
            d <= dims@.len(),
            axis < dims@.len(),
            out@ == (if d <= axis {
                dims@.take(d as int)
            } else {
                dims@.take(d as int).remove(axis as int)
            }),
        decreases dims@.len() - d,
    {
        if d != axis {
            out.push(dims[d]);
        }
        d = d + 1;
        assert(out@ =~= (if d <= axis {
            dims@.take(d as int)
        } else {
            dims@.take(d as int).remove(axis as int)
        }));
    }
    assert(dims@.take(d as int) =~= dims@);
    out
}

/// The input coordinate that output coordinate `oc` of a reduction along
/// `axis` reads at step `k` of the reduced axis.
pub open spec fn reduction_coords(oc: Seq<int>, axis: int, k: int) -> Seq<int> {
    Seq::new(
        oc.len() + 1,
        |d: int|
            if d < axis {
                oc[d]
            } else if d == axis {
                k
            } else {
                oc[d - 1]
            },
    )
}

/// The coordinates `oc` with `k` inserted at position `axis`.
fn insert_coord(oc: &[usize], axis: usize, k: usize) -> (c: Vec<usize>)
    requires
        axis <= oc@.len(),
        oc@.len() < usize::MAX,
    ensures
        usize_ints(c@) == reduction_coords(usize_ints(oc@), axis as int, k as int),
{
    let n = oc.len() + 1;
    let mut c: Vec<usize> = Vec::new();
    let mut d: usize = 0;
    let ghost target = reduction_coords(usize_ints(oc@), axis as int, k as int);
    while d < n
        invariant
            d <= n,
            n == oc@.len() + 1,
            axis <= oc@.len(),
            target == reduction_coords(usize_ints(oc@), axis as int, k as int),
            target.len() == n,
            usize_ints(c@) == target.take(d as int),
        decreases n - d,
    {
        let v = if d < axis {
            oc[d]
        } else if d == axis {
            k
        } else {
            oc[d - 1]
        };
        proof {
            if d < axis {
                assert(usize_ints(oc@)[d as int] == oc@[d as int] as int);
            } else if d > axis {
                assert(usize_ints(oc@)[d - 1] == oc@[d - 1] as int);
            }
            assert(target[d as int] == v as int);
        }
        let ghost prev = c@;
        c.push(v);
        proof {
            assert(c@ =~= prev.push(v));
            assert(usize_ints(c@) =~= usize_ints(prev).push(v as int));
            assert(target.take(d + 1) =~= target.take(d as int).push(target[d as int]));
        }
        d = d + 1;
    }
    assert(target.take(d as int) =~= target);
    c
}

/// For a reduction along `axis` of a strided view of `data`: for each element of
/// the reduced shape (in row-major order), the input elements along `axis`, in
/// the order in which they are accumulated.
pub fn sum_axis_gather<T: Copy>(
    data: &[T],
    dims: &[usize],
    strides: &[isize],
    base: usize,
    axis: usize,
) -> (out: Vec<Vec<T>>)
    requires
        axis < dims@.len() <= 9,
        view_fits(dims@, strides@, base as int, data@.len() as int),
        size_fits(dims@.remove(axis as int)),
    ensures
        out@.len() == shape_size(dims@.remove(axis as int)),
        forall|i: int| 0 <= i < out@.len() ==> #[trigger] out@[i]@.len() == dims@[axis as int],
        forall|i: int, k: int|
            0 <= i < out@.len() && 0 <= k < dims@[axis as int] ==> #[trigger] out@[i]@[k]
                == data@[base + dot(
                reduction_coords(unravel(i, dims@.remove(axis as int)), axis as int, k),
                isize_ints(strides@),
            )],
{
    let _len = data.len();
    let out_dims = reduced_dims(dims, axis);
    let num_out = num_elements_of(out_dims.as_slice());
    let axis_size = dims[axis];
    let mut out: Vec<Vec<T>> = Vec::new();
    let mut i: usize = 0;
    while i < num_out
        invariant
            i <= num_out,
            axis < dims@.len() <= 9,
            _len == data@.len(),
            out_dims@ == dims@.remove(axis as int),
            num_out == shape_size(out_dims@),
            axis_size == dims@[axis as int],
            view_fits(dims@, strides@, base as int, data@.len() as int),
            out@.len() == i,
            forall|j: int| 0 <= j < i ==> #[trigger] out@[j]@.len() == axis_size,
            forall|j: int, k: int|
                0 <= j < i && 0 <= k < axis_size ==> #[trigger] out@[j]@[k] == data@[base + dot(
                    reduction_coords(unravel(j, out_dims@), axis as int, k),
                    isize_ints(strides@),
                )],
        decreases num_out - i,
    {
        let oc = unravel_index(i, out_dims.as_slice());
        proof {
            lemma_unravel_bounds(i as int, out_dims@);
            assert forall|d: int| 0 <= d < out_dims@.len() implies #[trigger] oc@[d]
                < out_dims@[d] by {
                assert(usize_ints(oc@)[d] == unravel(i as int, out_dims@)[d]);
            }
        }
        let mut row: Vec<T> = Vec::new();
        let mut k: usize = 0;
        while k < axis_size
            invariant
                k <= axis_size,
                i < num_out,
                axis < dims@.len() <= 9,
                _len == data@.len(),
                out_dims@ == dims@.remove(axis as int),
                num_out == shape_size(out_dims@),
                axis_size == dims@[axis as int],
                view_fits(dims@, strides@, base as int, data@.len() as int),
                usize_ints(oc@) == unravel(i as int, out_dims@),
                oc@.len() == out_dims@.len(),
                forall|d: int| 0 <= d < out_dims@.len() ==> #[trigger] oc@[d] < out_dims@[d],
                row@.len() == k,
                forall|m: int|
                    0 <= m < k ==> #[trigger] row@[m] == data@[base + dot(
                        reduction_coords(unravel(i as int, out_dims@), axis as int, m),
                        isize_ints(strides@),
                    )],
            decreases axis_size - k,
        {
            let c = insert_coord(oc.as_slice(), axis, k);
            proof {
                let cc = reduction_coords(unravel(i as int, out_dims@), axis as int, k as int);
                assert forall|d: int| 0 <= d < dims@.len() implies 0 <= #[trigger] cc[d]
                    < dims@[d] by {
                    if d < axis {
                        assert(cc[d] == oc@[d]);
                        assert(out_dims@[d] == dims@[d]);
                    } else if d > axis {
                        assert(cc[d] == oc@[d - 1]);
                        assert(out_dims@[d - 1] == dims@[d]);
                    }
                }
                assert forall|d: int| 0 <= d < dims@.len() implies dims@[d] > 0 by {
                    assert(0 <= cc[d] < dims@[d]);
                }
                lemma_size_positive(dims@);
                lemma_dot_le_extent(cc, dims@, strides@);
                assert forall|e: int| 0 <= e < cc.len() implies cc[e] >= 0 && isize_ints(
                    strides@,
                )[e] >= 0 by {
                    assert(0 <= cc[e] < dims@[e]);
                }
                lemma_dot_nonneg(cc, isize_ints(strides@));
            }
            let off = strided_offset(c.as_slice(), strides, base);
            row.push(data[off]);
            k = k + 1;
        }
        out.push(row);
        i = i + 1;
    }
    out
}

/// `y` is component `second` of what `rotate` makes of the pair `(x0, x1)` of
/// feature pair `pair` at sequence position `pos`.
pub open spec fn rotated<T, R: Fn(usize, usize, T, T) -> (T, T)>(
    y: T,
    rotate: R,
    pos: int,
    pair: int,
    x0: T,
    x1: T,
    second: bool,
) -> bool {
    exists|v: (T, T)|
        #[trigger] rotate.ensures((pos as usize, pair as usize, x0, x1), v) && y == if second {
            v.1
        } else {
            v.0
        }
}

/// The rotary embedding of a contiguous `[..., seq_len, head_dim]` tensor:
/// every element `j` is the matching component of the rotation of its
/// feature pair `(x[j - j % 2], x[j - j % 2 + 1])`, by the angle of its
/// token's sequence position `(j / head_dim) % seq_len` and its pair index
/// `(j % head_dim) / 2`.
pub open spec fn is_rope_output<T, R: Fn(usize, usize, T, T) -> (T, T)>(
    out: Seq<T>,
    x: Seq<T>,
    seq_len: int,
    head_dim: int,
    rotate: R,
) -> bool {
    forall|j: int|
        0 <= j < out.len() ==> rotated(
            #[trigger] out[j],
            rotate,
            (j / head_dim) % seq_len,
            (j % head_dim) / 2,
            x[j - j % 2],
            x[j - j % 2 + 1],
            j % 2 == 1,
        )
}

proof fn lemma_pair_position(j: int, head_dim: int)
    requires
        j >= 0,
        j % 2 == 0,
        head_dim > 0,
        head_dim % 2 == 0,
    ensures
        (j + 1) / head_dim == j / head_dim,
        (j + 1) % head_dim == j % head_dim + 1,
        ((j + 1) % head_dim) / 2 == (j % head_dim) / 2,
        (j + 1) % 2 == 1,
        (j + 1) - (j + 1) % 2 == j,
{
    let q = j / head_dim;
    let r = j % head_dim;
    vstd::arithmetic::div_mod::lemma_fundamental_div_mod(j, head_dim);
    assert(r % 2 == 0) by (nonlinear_arith)
        requires
            j == head_dim * q + r,
            j % 2 == 0,
            head_dim % 2 == 0,
    {
        let hh = head_dim / 2;
        assert(head_dim == 2 * hh);
        assert(j == 2 * (hh * q) + r);
    }
    assert(r + 1 < head_dim);
    vstd::arithmetic::div_mod::lemma_fundamental_div_mod_converse(j + 1, head_dim, q, r + 1);
}

/// Rotary position embedding of a contiguous tensor with dimensions `dims`
/// (`[..., seq_len, head_dim]`, `head_dim == dim`): each token's feature pairs
/// are rotated by `rotate`, given the token's position in its sequence and the
/// pair's index.
pub fn rope_apply<T: Copy, R: Fn(usize, usize, T, T) -> (T, T)>(
    x: &[T],
    dims: &[usize],
    dim: usize,
    rotate: &R,
) -> (out: Vec<T>)
    requires
        dims@.len() >= 2,
        dims@.last() == dim,
        dim > 0,
        dim % 2 == 0,
        size_fits(dims@),
        x@.len() >= shape_size(dims@),
        forall|pos: usize, pair: usize, x0: T, x1: T| #[trigger] rotate.requires((pos, pair, x0, x1)),
    ensures
        out@.len() == shape_size(dims@),
        is_rope_output(out@, x@, dims@[dims@.len() - 2] as int, dim as int, *rotate),
{
    let rank = dims.len();
    let seq_len = dims[rank - 2];
    let head_dim = dims[rank - 1];
    let n = num_elements_of(dims);
    proof {
        let dl = dims@.drop_last();
        assert(shape_size(dims@) == shape_size(dl) * head_dim);
        assert(n % 2 == 0) by (nonlinear_arith)
            requires
                n == shape_size(dl) * head_dim,
                head_dim % 2 == 0,
        {
            let hh = head_dim / 2;
            assert(head_dim == 2 * hh);
            assert(n == 2 * (shape_size(dl) * hh));
        }
        assert(seq_len > 0 || n == 0) by {
            if seq_len == 0 {
                lemma_size_positive(dims@);
                assert(dims@[rank - 2] == 0);
            }
        }
    }
    let mut out: Vec<T> = Vec::new();
    let mut j: usize = 0;
    while j < n
        invariant
            j <= n,
            j % 2 == 0,
            n % 2 == 0,
            n == shape_size(dims@),
            x@.len() >= n,
            seq_len == dims@[dims@.len() - 2],
            head_dim == dim,
            dim > 0,
            dim % 2 == 0,
            seq_len > 0 || n == 0,
            out@.len() == j,
            forall|pos: usize, pair: usize, x0: T, x1: T| #[trigger] rotate.requires((pos, pair, x0, x1)),
            is_rope_output(out@, x@, seq_len as int, dim as int, *rotate),
        decreases n - j,
    {
        let pos = (j / head_dim) % seq_len;
        let pair = (j % head_dim) / 2;
        let v = rotate(pos, pair, x[j], x[j + 1]);
        let ghost before = out@;
        out.push(v.0);
        out.push(v.1);
        proof {
            lemma_pair_position(j as int, dim as int);
            assert forall|k: int| 0 <= k < out@.len() implies rotated(
                #[trigger] out@[k],
                *rotate,
                (k / dim as int) % seq_len as int,
                (k % dim as int) / 2,
                x@[k - k % 2],
                x@[k - k % 2 + 1],
                k % 2 == 1,
            ) by {
                if k < j {
                    assert(out@[k] == before[k]);
                } else if k == j {
                    assert(rotate.ensures((pos, pair, x@[j as int], x@[j + 1]), v));
                } else {
                    assert(rotate.ensures((pos, pair, x@[j as int], x@[j + 1]), v));
                }
            }
        }
        j = j + 2;
    }
    out
}

/// `partials` traces a left fold of `s` by `combine` from `init`: it starts at
/// `init`, and each next value is what `combine` makes of the running value and
/// the next element.
pub open spec fn is_fold_trace<T, C: Fn(T, T) -> T>(combine: C, init: T, s: Seq<T>, partials: Seq<T>) -> bool {
    &&& partials.len() == s.len() + 1
    &&& partials[0] == init
    &&& forall|k: int|
        0 <= k < s.len() ==> #[trigger] combine.ensures((partials[k], s[k]), partials[k + 1])
}

/// `r` is the left fold of `s` by `combine` from `init`.
pub open spec fn is_fold<T, C: Fn(T, T) -> T>(combine: C, init: T, s: Seq<T>, r: T) -> bool {
    exists|partials: Seq<T>| #[trigger] is_fold_trace(combine, init, s, partials) && partials.last() == r
}

/// `combine` gives one result for each pair of arguments.
pub open spec fn is_function<T, C: Fn(T, T) -> T>(combine: C) -> bool {
    forall|a: T, b: T, r1: T, r2: T|
        #![trigger combine.ensures((a, b), r1), combine.ensures((a, b), r2)]
        combine.ensures((a, b), r1) && combine.ensures((a, b), r2) ==> r1 == r2
}

/// A left fold by a `combine` that is a function has one result: repeating a
/// reduction on the same elements gives the same value, bit for bit.
pub proof fn lemma_fold_deterministic<T, C: Fn(T, T) -> T>(
    combine: C,
    init: T,
    s: Seq<T>,
    r1: T,
    r2: T,
)
    requires
        is_function(combine),
        is_fold(combine, init, s, r1),
        is_fold(combine, init, s, r2),
    ensures
        r1 == r2,
{
    let p1 = choose|p: Seq<T>| #[trigger] is_fold_trace(combine, init, s, p) && p.last() == r1;
    let p2 = choose|p: Seq<T>| #[trigger] is_fold_trace(combine, init, s, p) && p.last() == r2;
    lemma_fold_traces_agree(combine, init, s, p1, p2, s.len() as int);
}

proof fn lemma_fold_traces_agree<T, C: Fn(T, T) -> T>(
    combine: C,
    init: T,
    s: Seq<T>,
    p1: Seq<T>,
    p2: Seq<T>,
    k: int,
)
    requires
        is_function(combine),
        is_fold_trace(combine, init, s, p1),
        is_fold_trace(combine, init, s, p2),
        0 <= k <= s.len(),
    ensures
        p1[k] == p2[k],
    decreases k,
{
    if k > 0 {
        let j = k - 1;
        lemma_fold_traces_agree(combine, init, s, p1, p2, j);
        assert(combine.ensures((p1[j], s[j]), p1[j + 1]));
        assert(combine.ensures((p2[j], s[j]), p2[j + 1]));
    }
}

/// The left fold of `s` by `combine` from `init`, element after element.
pub fn fold_left<T: Copy, C: Fn(T, T) -> T>(s: &[T], init: T, combine: &C) -> (r: T)
    requires
        forall|a: T, b: T| #[trigger] combine.requires((a, b)),
    ensures
        is_fold(*combine, init, s@, r),
{
    let mut acc = init;
    let ghost mut partials: Seq<T> = seq![init];
    let mut i: usize = 0;
    while i < s.len()
        invariant
            i <= s@.len(),
            forall|a: T, b: T| #[trigger] combine.requires((a, b)),
            is_fold_trace(*combine, init, s@.take(i as int), partials),
            partials.last() == acc,
        decreases s@.len() - i,
    {
        let next = combine(acc, s[i]);
        proof {
            let old_partials = partials;
            partials = partials.push(next);
            assert forall|k: int| 0 <= k < i + 1 implies #[trigger] combine.ensures(
                (partials[k], s@.take(i + 1)[k]),
                partials[k + 1],
            ) by {
                if k < i {
                    assert(s@.take(i + 1)[k] == s@.take(i as int)[k]);
                    assert(combine.ensures((old_partials[k], s@.take(i as int)[k]), old_partials[k + 1]));
                }
            }
        }
        acc = next;
        i = i + 1;
    }
    assert(s@.take(i as int) =~= s@);
    assert(is_fold_trace(*combine, init, s@, partials));
    acc
}

/// The elements of a strided view, in row-major order.
pub open spec fn view_elements<T>(data: Seq<T>, dims: Seq<usize>, strides: Seq<isize>, base: int) -> Seq<
    T,
> {
    Seq::new(shape_size(dims), |k: int| data[base + view_offset(dims, strides, k)])
}

/// The sum of all elements of a strided view: `combine` folds them, in row-major
/// order, into `zero`.
pub fn sum_typed<T: Copy, C: Fn(T, T) -> T>(
    data: &[T],
    dims: &[usize],
    strides: &[isize],
    base: usize,
    zero: T,
    combine: &C,
) -> (total: T)
    requires
        view_fits(dims@, strides@, base as int, data@.len() as int),
        size_fits(dims@),
        forall|a: T, b: T| #[trigger] combine.requires((a, b)),
    ensures
        is_fold(*combine, zero, view_elements(data@, dims@, strides@, base as int), total),
{
    let elems = gather_strided(data, dims, strides, base);
    assert(elems@ =~= view_elements(data@, dims@, strides@, base as int));
    fold_left(elems.as_slice(), zero, combine)
}

/// The elements that output element `i` of a reduction along `axis` combines,
/// in order along the axis.
pub open spec fn axis_elements<T>(
    data: Seq<T>,
    dims: Seq<usize>,
    strides: Seq<isize>,
    base: int,
    axis: int,
    i: int,
) -> Seq<T> {
    Seq::new(
        dims[axis] as nat,
        |k: int|
            data[base + dot(
                reduction_coords(unravel(i, dims.remove(axis)), axis, k),
                isize_ints(strides),
            )],
    )
}

/// The sums of a strided view along `axis`: output element `i` (row-major in
/// the reduced shape) is the fold by `combine`, from `zero`, of the elements along
/// the axis at its coordinates.
pub fn sum_axis_typed<T: Copy, C: Fn(T, T) -> T>(
    data: &[T],
    dims: &[usize],
    strides: &[isize],
    base: usize,
    axis: usize,
    zero: T,
    combine: &C,
) -> (out: Vec<T>)
    requires
        axis < dims@.len() <= 9,
        view_fits(dims@, strides@, base as int, data@.len() as int),
        size_fits(dims@.remove(axis as int)),
        forall|a: T, b: T| #[trigger] combine.requires((a, b)),
    ensures
        out@.len() == shape_size(dims@.remove(axis as int)),
        forall|i: int|
            0 <= i < out@.len() ==> is_fold(
                *combine,
                zero,
                axis_elements(data@, dims@, strides@, base as int, axis as int, i),
                #[trigger] out@[i],
            ),
{
    let groups = sum_axis_gather(data, dims, strides, base, axis);
    let mut out: Vec<T> = Vec::new();
    let mut i: usize = 0;
    while i < groups.len()
        invariant
            i <= groups@.len(),
            groups@.len() == shape_size(dims@.remove(axis as int)),
            forall|g: int| 0 <= g < groups@.len() ==> #[trigger] groups@[g]@.len() == dims@[axis as int],
            forall|g: int, k: int|
                0 <= g < groups@.len() && 0 <= k < dims@[axis as int] ==> #[trigger] groups@[g]@[k]
                    == data@[base + dot(
                    reduction_coords(unravel(g, dims@.remove(axis as int)), axis as int, k),
                    isize_ints(strides@),
                )],
            forall|a: T, b: T| #[trigger] combine.requires((a, b)),
            out@.len() == i,
            forall|g: int|
                0 <= g < i ==> is_fold(
                    *combine,
                    zero,
                    axis_elements(data@, dims@, strides@, base as int, axis as int, g),
                    #[trigger] out@[g],
                ),
        decreases groups@.len() - i,
    {
        let r = fold_left(groups[i].as_slice(), zero, combine);
        proof {
            assert(groups@[i as int]@ =~= axis_elements(
                data@,
                dims@,
                strides@,
                base as int,
                axis as int,
                i as int,
            ));
        }
        out.push(r);
        i = i + 1;
    }
    out
}

/// `y` is `kept` where `positive` holds of `x`, and `zero` where it does not.
pub open spec fn gated<T, P: Fn(T) -> bool>(positive: P, x: T, kept: T, zero: T, y: T) -> bool {
    exists|b: bool| #[trigger] positive.ensures((x,), b) && y == if b {
        kept
    } else {
        zero
    }
}

/// The reduction of a strided view along `axis`, with its output dimensions:
/// the input's dimensions without `axis`. A rank-1 input reduces to a single
/// element, the fold of all its elements in order, as a full sum does.
pub fn sum_along<T: Copy, C: Fn(T, T) -> T>(
    data: &[T],
    dims: &[usize],
    strides: &[isize],
    base: usize,
    axis: usize,
    zero: T,
    combine: &C,
) -> (r: (Vec<usize>, Vec<T>))
    requires
        axis < dims@.len() <= 9,
        view_fits(dims@, strides@, base as int, data@.len() as int),
        size_fits(dims@.remove(axis as int)),
        forall|a: T, b: T| #[trigger] combine.requires((a, b)),
    ensures
        r.0@ == dims@.remove(axis as int),
        r.1@.len() == shape_size(r.0@),
        forall|i: int|
            0 <= i < r.1@.len() ==> is_fold(
                *combine,
                zero,
                axis_elements(data@, dims@, strides@, base as int, axis as int, i),
                #[trigger] r.1@[i],
            ),
{
    let out_dims = reduced_dims(dims, axis);
    let out = sum_axis_typed(data, dims, strides, base, axis, zero, combine);
    (out_dims, out)
}

/// The gradient of taking slice `index` from a stack of `count` slices:
/// `slice` in the place of slice `index`, `zero` everywhere else.
pub fn place_slice<T: Copy>(slice: &[T], count: usize, index: usize, zero: T) -> (out: Vec<T>)
    requires
        index < count,
        count * slice@.len() <= usize::MAX,
    ensures
        out@.len() == count * slice@.len(),
        forall|j: int|
            0 <= j < out@.len() ==> #[trigger] out@[j] == if index * slice@.len() <= j < (index + 1)
                * slice@.len() {
                slice@[j - index * slice@.len()]
            } else {
                zero
            },
{
    let len = slice.len();
    proof {
        assert(index * len <= count * len) by (nonlinear_arith)
            requires
                index < count,
        ;
        assert((index + 1) * len <= count * len) by (nonlinear_arith)
            requires
                index < count,
        ;
        assert((index + 1) * len == index * len + len) by (nonlinear_arith);
    }
    let total = count * len;
    let start = index * len;
    let end = start + len;
    let mut out: Vec<T> = Vec::new();
    let mut j: usize = 0;
    while j < total
        invariant
            j <= total,
            total == count * len,
            len == slice@.len(),
            start == index * len,
            end == (index + 1) * len,
            end == start + len,
            end <= total,
            out@.len() == j,
            forall|k: int|
                0 <= k < j ==> #[trigger] out@[k] == if start <= k < end {
                    slice@[k - start]
                } else {
                    zero
                },
        decreases total - j,
    {
        let v = if start <= j && j < end {
            slice[j - start]
        } else {
            zero
        };
        out.push(v);
        j = j + 1;
    }
    out
}

/// Rectified linear unit: each element is kept where `positive` holds of it,
/// and replaced by `zero` elsewhere.
pub fn relu_typed<T: Copy, P: Fn(T) -> bool>(input: &[T], zero: T, positive: &P) -> (out: Vec<T>)
    requires
        forall|x: T| #[trigger] positive.requires((x,)),
    ensures
        out@.len() == input@.len(),
        forall|i: int|
            0 <= i < input@.len() ==> gated(*positive, input@[i], input@[i], zero, #[trigger] out@[i]),
{
    let mut out: Vec<T> = Vec::new();
    let mut i: usize = 0;
    while i < input.len()
        invariant
            i <= input@.len(),
            out@.len() == i,
            forall|x: T| #[trigger] positive.requires((x,)),
            forall|j: int|
                0 <= j < i ==> gated(*positive, input@[j], input@[j], zero, #[trigger] out@[j]),
        decreases input@.len() - i,
    {
        let x = input[i];
        let keep = positive(x);
        let ghost before = out@;
        let y = if keep {
            x
        } else {
            zero
        };
        out.push(y);
        proof {
            assert(positive.ensures((input@[i as int],), keep));
            assert(gated(*positive, input@[i as int], input@[i as int], zero, y));
            assert forall|j: int| 0 <= j < i + 1 implies gated(
                *positive,
                input@[j],
                input@[j],
                zero,
                #[trigger] out@[j],
            ) by {
                if j < i {
                    assert(out@[j] == before[j]);
                }
            }
        }
        i = i + 1;
    }
    out
}

/// The gradient of the rectified linear unit: the output gradient passes
/// where `positive` holds of the input, and `zero` elsewhere.
pub fn relu_backward_typed<T: Copy, P: Fn(T) -> bool>(
    grad: &[T],
    input: &[T],
    zero: T,
    positive: &P,
) -> (out: Vec<T>)
    requires
        grad@.len() == input@.len(),
        forall|x: T| #[trigger] positive.requires((x,)),
    ensures
        out@.len() == input@.len(),
        forall|i: int|
            0 <= i < input@.len() ==> gated(*positive, input@[i], grad@[i], zero, #[trigger] out@[i]),
{
    let mut out: Vec<T> = Vec::new();
    let mut i: usize = 0;
    while i < input.len()
        invariant
            i <= input@.len(),
            grad@.len() == input@.len(),
            out@.len() == i,
            forall|x: T| #[trigger] positive.requires((x,)),
            forall|j: int|
                0 <= j < i ==> gated(*positive, input@[j], grad@[j], zero, #[trigger] out@[j]),
        decreases input@.len() - i,
    {
        let keep = positive(input[i]);
        let ghost before = out@;
        let y = if keep {
            grad[i]
        } else {
            zero
        };
        out.push(y);
        proof {
            assert(positive.ensures((input@[i as int],), keep));
            assert(gated(*positive, input@[i as int], grad@[i as int], zero, y));
            assert forall|j: int| 0 <= j < i + 1 implies gated(
                *positive,
                input@[j],
                grad@[j],
                zero,
                #[trigger] out@[j],
            ) by {
                if j < i {
                    assert(out@[j] == before[j]);
                }
            }
        }
        i = i + 1;
    }
    out
}

/// One in-place optimizer step: every weight becomes what `step` makes of it
/// and its gradient (for plain gradient descent, `w - lr * g`).
pub fn sgd_update<T: Copy, F: Fn(T, T) -> T>(weight: &mut Vec<T>, grad: &[T], step: &F)
    requires
        grad@.len() == old(weight)@.len(),
        forall|w: T, g: T| #[trigger] step.requires((w, g)),
    ensures
        final(weight)@.len() == old(weight)@.len(),
        forall|i: int|
            0 <= i < old(weight)@.len() ==> #[trigger] step.ensures(
                (old(weight)@[i], grad@[i]),
                final(weight)@[i],
            ),
{
    let ghost w0 = weight@;
    let mut i: usize = 0;
    while i < weight.len()
        invariant
            i <= weight@.len(),
            weight@.len() == w0.len(),
            grad@.len() == w0.len(),
            forall|w: T, g: T| #[trigger] step.requires((w, g)),
            forall|j: int| i <= j < w0.len() ==> weight@[j] == w0[j],
            forall|j: int| 0 <= j < i ==> #[trigger] step.ensures((w0[j], grad@[j]), weight@[j]),
        decreases weight@.len() - i,
    {
        let w = weight[i];
        let next = step(w, grad[i]);
        weight.set(i, next);
        i = i + 1;
    }
}

} // verus!
