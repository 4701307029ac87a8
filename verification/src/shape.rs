//! Shapes, strides and element types, with the row-major layout model that the
//! kernels and the autograd engine speak of.
use vstd::prelude::*;

verus! {

/// The number of elements of a shape: the product of its dimensions
/// (1 for the rank-0 scalar shape).
pub open spec fn shape_size(dims: Seq<usize>) -> nat
    decreases dims.len(),
{
    if dims.len() == 0 {
        1
    } else {
        shape_size(dims.drop_last()) * (dims.last() as nat)
    }
}

/// The row-major coordinates of the linear index `k` in a shape: the last axis
/// varies fastest.
pub open spec fn unravel(k: int, dims: Seq<usize>) -> Seq<int>
    decreases dims.len(),
{
    if dims.len() == 0 {
        Seq::empty()
    } else {
        unravel(k / (dims.last() as int), dims.drop_last()).push(k % (dims.last() as int))
    }
}

/// The sum over the axes of `coords[d] * steps[d]`.
pub open spec fn dot(coords: Seq<int>, steps: Seq<int>) -> int
    decreases coords.len(),
{
    if coords.len() == 0 || steps.len() == 0 {
        0
    } else {
        dot(coords.drop_last(), steps.drop_last()) + coords.last() * steps.last()
    }
}

/// Integers of a sequence of machine integers.
pub open spec fn isize_ints(s: Seq<isize>) -> Seq<int> {
    s.map_values(|x: isize| x as int)
}

/// Integers of a sequence of machine integers.
pub open spec fn usize_ints(s: Seq<usize>) -> Seq<int> {
    s.map_values(|x: usize| x as int)
}

/// The strides of a contiguous row-major tensor: the step of axis `d` is the
/// number of elements spanned by the axes after it.
pub open spec fn row_major_strides(dims: Seq<usize>) -> Seq<int> {
    Seq::new(dims.len(), |d: int| shape_size(dims.subrange(d + 1, dims.len() as int)) as int)
}

/// Every stride of the contiguous layout of `dims` fits in an `isize`.
pub open spec fn row_major_fits(dims: Seq<usize>) -> bool {
    forall|d: int|
        1 <= d <= dims.len() ==> #[trigger] shape_size(dims.subrange(d, dims.len() as int))
            <= isize::MAX
}

/// The product of the dimensions, taken left to right, never leaves `usize`.
pub open spec fn size_fits(dims: Seq<usize>) -> bool {
    forall|i: int| 0 <= i <= dims.len() ==> #[trigger] shape_size(dims.take(i)) <= usize::MAX
}

/// The element offset, relative to the view's base, of the `k`-th element (in
/// row-major order) of a strided view.
pub open spec fn view_offset(dims: Seq<usize>, strides: Seq<isize>, k: int) -> int {
    dot(unravel(k, dims), isize_ints(strides))
}

/// The largest offset a strided view with nonnegative strides can reach: each
/// coordinate at its maximum.
pub open spec fn max_extent(dims: Seq<usize>, strides: Seq<isize>) -> int {
    dot(max_extent_terms(dims), isize_ints(strides))
}

/// The largest coordinate of each axis.
pub open spec fn max_extent_terms(dims: Seq<usize>) -> Seq<int> {
    dims.map_values(|x: usize| x as int - 1)
}

/// All strides are nonnegative.
pub open spec fn nonneg_strides(strides: Seq<isize>) -> bool {
    forall|d: int| 0 <= d < strides.len() ==> strides[d] >= 0
}

/// The sequence of offsets (base included) at which a strided view stores its
/// elements, in row-major order.
pub open spec fn view_offsets(dims: Seq<usize>, strides: Seq<isize>, base: int) -> Seq<int> {
    Seq::new(shape_size(dims), |k: int| base + view_offset(dims, strides, k))
}

/// A strided view over `len` elements of storage: same rank, nonnegative
/// strides, and its last element (when it has one) lies before `len`.
pub open spec fn view_fits(dims: Seq<usize>, strides: Seq<isize>, base: int, len: int) -> bool {
    &&& dims.len() == strides.len()
    &&& nonneg_strides(strides)
    &&& shape_size(dims) > 0 ==> base + max_extent(dims, strides) < len
}

pub proof fn lemma_size_append(a: Seq<usize>, b: Seq<usize>)
    ensures
        shape_size(a + b) == shape_size(a) * shape_size(b),
    decreases b.len(),
{
    if b.len() == 0 {
        assert(a + b =~= a);
        assert(shape_size(b) == 1);
    } else {
        lemma_size_append(a, b.drop_last());
        assert((a + b).drop_last() =~= a + b.drop_last());
        assert((a + b).last() == b.last());
        assert((a + b).len() > 0);
        assert(shape_size(a + b) == shape_size((a + b).drop_last()) * ((a + b).last() as nat));
        assert(shape_size(b) == shape_size(b.drop_last()) * (b.last() as nat));
        let x = shape_size(a);
        let y = shape_size(b.drop_last());
        let z = b.last() as nat;
        assert(x * y * z == x * (y * z)) by (nonlinear_arith);
        assert(shape_size(a + b.drop_last()) == x * y);
        assert(shape_size(a + b) == x * y * z);
        assert(shape_size(b) == y * z);
    }
}

pub proof fn lemma_size_single(x: usize)
    ensures
        shape_size(seq![x]) == x,
{
    let s = seq![x];
    assert(s.len() == 1);
    assert(s.last() == x);
    assert(s.drop_last() =~= Seq::<usize>::empty());
    assert(shape_size(Seq::<usize>::empty()) == 1);
    assert(shape_size(s) == shape_size(s.drop_last()) * (s.last() as nat));
}

/// A shape has elements exactly when none of its dimensions is zero.
pub proof fn lemma_size_positive(dims: Seq<usize>)
    ensures
        shape_size(dims) > 0 <==> (forall|d: int| 0 <= d < dims.len() ==> dims[d] > 0),
    decreases dims.len(),
{
    if dims.len() > 0 {
        let dl = dims.drop_last();
        lemma_size_positive(dl);
        let a = shape_size(dl);
        let l = dims.last() as nat;
        assert(a * l > 0 <==> (a > 0 && l > 0)) by (nonlinear_arith);
        if shape_size(dims) > 0 {
            assert forall|d: int| 0 <= d < dims.len() implies dims[d] > 0 by {
                if d < dims.len() - 1 {
                    assert(dl[d] == dims[d]);
                }
            }
        } else {
            if forall|d: int| 0 <= d < dims.len() ==> dims[d] > 0 {
                assert forall|d: int| 0 <= d < dl.len() implies dl[d] > 0 by {
                    assert(dims[d] > 0);
                }
                assert(dims[dims.len() - 1] > 0);
            }
        }
    }
}

/// An index below `a * l` has a quotient by `l` below `a`, and `l` is positive.
pub proof fn lemma_index_quotient(k: int, a: int, l: int)
    requires
        0 <= k < a * l,
        a >= 0,
        l >= 0,
    ensures
        l > 0,
        0 <= k / l < a,
{
    assert(l > 0 && k / l < a && 0 <= k / l) by (nonlinear_arith)
        requires
            0 <= k < a * l,
            a >= 0,
            l >= 0,
    {
        if l <= 0 {
            assert(a * l <= 0);
        }
        if k / l >= a {
            assert(l * (k / l) >= l * a);
        }
    }
}

/// The coordinates of an element of a shape lie within its dimensions.
pub proof fn lemma_unravel_bounds(k: int, dims: Seq<usize>)
    requires
        0 <= k < shape_size(dims),
    ensures
        unravel(k, dims).len() == dims.len(),
        forall|d: int| 0 <= d < dims.len() ==> 0 <= #[trigger] unravel(k, dims)[d] < dims[d],
    decreases dims.len(),
{
    if dims.len() > 0 {
        let dl = dims.drop_last();
        let l = dims.last() as int;
        let a = shape_size(dl) as int;
        lemma_index_quotient(k, a, l);
        lemma_unravel_bounds(k / l, dl);
        let u = unravel(k, dims);
        assert forall|d: int| 0 <= d < dims.len() implies 0 <= #[trigger] u[d] < dims[d] by {
            if d < dims.len() - 1 {
                assert(u[d] == unravel(k / l, dl)[d]);
                assert(dl[d] == dims[d]);
            }
        }
    }
}

/// A partial sum of a dot product of nonnegative terms is at most the whole.
pub proof fn lemma_dot_prefix(c: Seq<int>, s: Seq<int>, d: int)
    requires
        c.len() == s.len(),
        0 <= d <= c.len(),
        forall|e: int| 0 <= e < c.len() ==> c[e] >= 0 && s[e] >= 0,
    ensures
        0 <= dot(c.take(d), s.take(d)) <= dot(c, s),
    decreases c.len() - d,
{
    if d < c.len() {
        lemma_dot_prefix(c, s, d + 1);
        lemma_dot_step(c, s, d);
        assert forall|e: int| 0 <= e < d implies c.take(d)[e] >= 0 && s.take(d)[e] >= 0 by {
            assert(c.take(d)[e] == c[e]);
            assert(s.take(d)[e] == s[e]);
        }
        lemma_dot_nonneg(c.take(d), s.take(d));
        let x = c[d];
        let y = s[d];
        assert(x * y >= 0) by (nonlinear_arith)
            requires
                x >= 0,
                y >= 0,
        ;
    } else {
        assert(c.take(d) =~= c);
        assert(s.take(d) =~= s);
        lemma_dot_nonneg(c, s);
    }
}

pub proof fn lemma_dot_nonneg(c: Seq<int>, s: Seq<int>)
    requires
        c.len() == s.len(),
        forall|e: int| 0 <= e < c.len() ==> c[e] >= 0 && s[e] >= 0,
    ensures
        dot(c, s) >= 0,
    decreases c.len(),
{
    if c.len() > 0 {
        lemma_dot_nonneg(c.drop_last(), s.drop_last());
        let x = c.last();
        let y = s.last();
        assert(x * y >= 0) by (nonlinear_arith)
            requires
                x >= 0,
                y >= 0,
        ;
    }
}

/// One more axis of a dot product.
pub proof fn lemma_dot_step(c: Seq<int>, s: Seq<int>, d: int)
    requires
        0 <= d < c.len(),
        c.len() == s.len(),
    ensures
        dot(c.take(d + 1), s.take(d + 1)) == dot(c.take(d), s.take(d)) + c[d] * s[d],
{
    assert(c.take(d + 1).last() == c[d]);
    assert(s.take(d + 1).last() == s[d]);
    assert(c.take(d + 1).drop_last() =~= c.take(d));
    assert(s.take(d + 1).drop_last() =~= s.take(d));
}

/// Coordinates bounded by the dimensions give an offset bounded by the extent.
pub proof fn lemma_dot_le_extent(c: Seq<int>, dims: Seq<usize>, strides: Seq<isize>)
    requires
        c.len() == dims.len(),
        dims.len() == strides.len(),
        nonneg_strides(strides),
        forall|d: int| 0 <= d < c.len() ==> 0 <= #[trigger] c[d] < dims[d],
    ensures
        dot(c, isize_ints(strides)) <= max_extent(dims, strides),
    decreases c.len(),
{
    if c.len() > 0 {
        let dl = dims.drop_last();
        let sl = strides.drop_last();
        assert forall|d: int| 0 <= d < sl.len() implies sl[d] >= 0 by {
            assert(sl[d] == strides[d]);
        }
        assert forall|d: int| 0 <= d < c.len() - 1 implies 0 <= #[trigger] c.drop_last()[d] < dl[d] by {
            assert(c.drop_last()[d] == c[d]);
            assert(dl[d] == dims[d]);
        }
        lemma_dot_le_extent(c.drop_last(), dl, sl);
        assert(isize_ints(strides).drop_last() =~= isize_ints(sl));
        assert(max_extent_terms(dims).drop_last() =~= max_extent_terms(dl));
        let x = c.last();
        let m = dims.last() as int - 1;
        let y = strides.last() as int;
        assert(x * y <= m * y) by (nonlinear_arith)
            requires
                0 <= x <= m,
                y >= 0,
        ;
    }
}

/// Every offset of a fitting view lies in `[base, len)`.
pub proof fn lemma_view_offset_bounds(
    dims: Seq<usize>,
    strides: Seq<isize>,
    base: int,
    len: int,
    k: int,
)
    requires
        view_fits(dims, strides, base, len),
        0 <= k < shape_size(dims),
    ensures
        0 <= view_offset(dims, strides, k),
        base + view_offset(dims, strides, k) < len,
        unravel(k, dims).len() == dims.len(),
        forall|d: int| 0 <= d < dims.len() ==> 0 <= #[trigger] unravel(k, dims)[d] < dims[d],
{
    lemma_unravel_bounds(k, dims);
    let c = unravel(k, dims);
    lemma_dot_le_extent(c, dims, strides);
    lemma_dot_nonneg(c, isize_ints(strides));
}

/// The scaled strides of a dot product scale its value.
pub proof fn lemma_dot_scale(c: Seq<int>, s: Seq<int>, l: int)
    requires
        c.len() == s.len(),
    ensures
        dot(c, s.map_values(|x: int| x * l)) == l * dot(c, s),
    decreases c.len(),
{
    if c.len() > 0 {
        lemma_dot_scale(c.drop_last(), s.drop_last(), l);
        assert(s.map_values(|x: int| x * l).drop_last() =~= s.drop_last().map_values(
            |x: int| x * l,
        ));
        let a = dot(c.drop_last(), s.drop_last());
        let x = c.last();
        let y = s.last();
        assert(l * a + x * (y * l) == l * (a + x * y)) by (nonlinear_arith);
    }
}

/// The contiguous row-major layout stores element `k` at offset `k`: it is the
/// identity on linear indices.
pub proof fn lemma_row_major_identity(dims: Seq<usize>, k: int)
    requires
        0 <= k < shape_size(dims),
    ensures
        dot(unravel(k, dims), row_major_strides(dims)) == k,
    decreases dims.len(),
{
    if dims.len() > 0 {
        let n = dims.len() as int;
        let dl = dims.drop_last();
        let l = dims.last() as int;
        let a = shape_size(dl) as int;
        lemma_index_quotient(k, a, l);
        lemma_row_major_identity(dl, k / l);
        lemma_unravel_bounds(k / l, dl);
        let rm = row_major_strides(dims);
        let rml = row_major_strides(dl);
        assert forall|d: int| 0 <= d < n - 1 implies #[trigger] rm[d] == rml[d] * l by {
            let tail = dims.subrange(d + 1, n);
            assert(tail =~= dl.subrange(d + 1, n - 1) + seq![dims.last()]);
            lemma_size_append(dl.subrange(d + 1, n - 1), seq![dims.last()]);
            lemma_size_single(dims.last());
        }
        assert(rm.drop_last() =~= rml.map_values(|x: int| x * l));
        assert(rm.last() == 1) by {
            assert(dims.subrange(n, n) =~= Seq::<usize>::empty());
        }
        lemma_dot_scale(unravel(k / l, dl), rml, l);
        assert(unravel(k, dims).drop_last() =~= unravel(k / l, dl));
        assert(l * (k / l) + k % l == k) by (nonlinear_arith)
            requires
                l > 0,
        ;
    }
}

/// The type of the elements of a tensor.
#[derive(PartialEq, Eq, Structural, Clone, Copy, Debug)]
pub enum DType {
    F32,
    F64,
    BF16,
}

impl DType {
    /// Width in bytes of one element.
    pub open spec fn spec_size_in_bytes(self) -> nat {
        match self {
            DType::F32 => 4,
            DType::F64 => 8,
            DType::BF16 => 2,
        }
    }

    pub fn size_in_bytes(&self) -> (n: usize)
        ensures
            n == self.spec_size_in_bytes(),
    {
        match self {
            DType::F32 => 4,
            DType::F64 => 8,
            DType::BF16 => 2,
        }
    }
}

/// The dimensions of a tensor, outermost first.
pub struct Shape {
    dims: Vec<usize>,
}

impl View for Shape {
    type V = Seq<usize>;

    closed spec fn view(&self) -> Seq<usize> {
        self.dims@
    }
}

impl Clone for Shape {
    fn clone(&self) -> (r: Self)
        ensures
            r@ == self@,
    {
        Shape { dims: self.dims.clone() }
    }
}

impl Shape {
    pub fn new(dims: Vec<usize>) -> (s: Shape)
        ensures
            s@ == dims@,
    {
        Shape { dims }
    }

    pub fn dims(&self) -> (d: &[usize])
        ensures
            d@ == self@,
    {
        self.dims.as_slice()
    }

    /// The dimensions, as an owned vector.
    pub fn into_dims(self) -> (d: Vec<usize>)
        ensures
            d@ == self@,
    {
        self.dims
    }

    pub fn rank(&self) -> (r: usize)
        ensures
            r == self@.len(),
    {
        self.dims.len()
    }

    /// The number of elements: the product of the dimensions.
    pub fn num_elements(&self) -> (n: usize)
        requires
            size_fits(self@),
        ensures
            n == shape_size(self@),
    {
        crate::kernels::num_elements_of(self.dims.as_slice())
    }

    /// The number of elements, or `None` when a product of leading dimensions
    /// leaves `usize`.
    pub fn checked_num_elements(&self) -> (r: Option<usize>)
        ensures
            r is Some <==> size_fits(self@),
            r is Some ==> r->0 == shape_size(self@),
    {
        let mut n: usize = 1;
        let mut i: usize = 0;
        while i < self.dims.len()
            invariant
                0 <= i <= self@.len(),
                n == shape_size(self@.take(i as int)),
                forall|j: int| 0 <= j <= i ==> #[trigger] shape_size(self@.take(j)) <= usize::MAX,
            decreases self@.len() - i,
        {
            assert(self@.take(i + 1).drop_last() =~= self@.take(i as int));
            match n.checked_mul(self.dims[i]) {
                None => {
                    assert(shape_size(self@.take(i + 1)) > usize::MAX);
                    return None;
                },
                Some(m) => {
                    n = m;
                },
            }
            i = i + 1;
        }
        assert(self@.take(i as int) =~= self@);
        Some(n)
    }

    /// Whether every stride of the contiguous layout fits in an `isize`.
    pub fn strides_fit(&self) -> (b: bool)
        ensures
            b == row_major_fits(self@),
    {
        let n = self.dims.len();
        let mut acc: usize = 1;
        let mut d: usize = n;
        proof {
            assert(self@.subrange(n as int, n as int) =~= Seq::<usize>::empty());
        }
        while d > 1
            invariant
                1 <= d <= n || (d == n && n <= 1),
                n == self@.len(),
                acc == shape_size(self@.subrange(d as int, n as int)),
                forall|e: int|
                    d <= e <= n ==> #[trigger] shape_size(self@.subrange(e, n as int))
                        <= isize::MAX,
            decreases d,
        {
            let ghost tail = self@.subrange(d as int, n as int);
            proof {
                assert(self@.subrange(d - 1, n as int) =~= seq![self@[d - 1]] + tail);
                lemma_size_append(seq![self@[d - 1]], tail);
                lemma_size_single(self@[d - 1]);
            }
            match self.dims[d - 1].checked_mul(acc) {
                None => {
                    return false;
                },
                Some(m) => {
                    if m > isize::MAX as usize {
                        return false;
                    }
                    acc = m;
                },
            }
            d = d - 1;
        }
        assert forall|e: int| 1 <= e <= n implies #[trigger] shape_size(
            self@.subrange(e, n as int),
        ) <= isize::MAX by {}
        true
    }

    /// The strides of the contiguous row-major layout of this shape.
    pub fn contiguous_strides(&self) -> (s: Strides)
        requires
            row_major_fits(self@),
        ensures
            isize_ints(s@) == row_major_strides(self@),
    {
        let n = self.dims.len();
        let mut steps: Vec<isize> = Vec::new();
        let mut k: usize = 0;
        while k < n
            invariant
                k <= n,
                n == self@.len(),
                steps@.len() == k,
            decreases n - k,
        {
            steps.push(0);
            k = k + 1;
        }
        let mut acc: usize = 1;
        let mut d: usize = n;
        while d > 0
            invariant
                d <= n,
                n == self@.len(),
                steps@.len() == n,
                row_major_fits(self@),
                0 < d ==> acc == shape_size(self@.subrange(d as int, n as int)),
                d == n ==> acc == 1,
                forall|e: int|
                    d <= e < n ==> steps@[e] as int == shape_size(
                        #[trigger] self@.subrange(e + 1, n as int),
                    ),
            decreases d,
        {
            d = d - 1;
            proof {
                assert(self@.subrange(n as int, n as int) =~= Seq::<usize>::empty());
                assert(shape_size(self@.subrange(d + 1, n as int)) <= isize::MAX);
            }
            steps.set(d, acc as isize);
            proof {
                let tail = self@.subrange(d as int, n as int);
                assert(tail =~= seq![self@[d as int]] + self@.subrange(d + 1, n as int));
                lemma_size_append(seq![self@[d as int]], self@.subrange(d + 1, n as int));
                lemma_size_single(self@[d as int]);
            }
            if d > 0 {
                proof {
                    assert(shape_size(self@.subrange(d as int, n as int)) <= isize::MAX);
                }
                acc = self.dims[d] * acc;
            }
        }
        let s = Strides { steps };
        assert(isize_ints(s@) =~= row_major_strides(self@));
        s
    }
}

/// Per-axis element steps of a strided view.
pub struct Strides {
    steps: Vec<isize>,
}

impl View for Strides {
    type V = Seq<isize>;

    closed spec fn view(&self) -> Seq<isize> {
        self.steps@
    }
}

impl Clone for Strides {
    fn clone(&self) -> (r: Self)
        ensures
            r@ == self@,
    {
        Strides { steps: self.steps.clone() }
    }
}

impl Strides {
    pub fn new(steps: Vec<isize>) -> (s: Strides)
        ensures
            s@ == steps@,
    {
        Strides { steps }
    }

    pub fn steps(&self) -> (s: &[isize])
        ensures
            s@ == self@,
    {
        self.steps.as_slice()
    }
}

} // verus!
