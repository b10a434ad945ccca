//! The dense N-dimensional array type: a flat row-major buffer of `i32`
//! elements plus a shape, with explicit broadcast materialization,
//! broadcasting element-wise addition, batched matrix multiplication, and
//! the gradient shape-reduction used by the backward pass.

use vstd::prelude::*;

use crate::shape::bc_shape;
use crate::shape::bsrc;
use crate::shape::checked_prod;
use crate::shape::dims_compatible;
use crate::shape::expandable_to;
use crate::shape::flat_index;
use crate::shape::in_bounds;
use crate::shape::lemma_bsrc_in_bounds;
use crate::shape::lemma_compat_expandable;
use crate::shape::lemma_flat_injective;
use crate::shape::lemma_flat_range;
use crate::shape::lemma_prod_all_pos;
use crate::shape::lemma_prod_concat;
use crate::shape::lemma_prod_nonneg;
use crate::shape::lemma_prod_positive_dims;
use crate::shape::lemma_unrank;
use crate::shape::lemma_unrank_flat;
use crate::shape::MultiIndexIterator;
use crate::shape::prod;
use crate::shape::src_offset;
use crate::shape::unrank;
use crate::shape::unrank_exec;
use crate::AdError;

verus! {

/// `x` is representable as an `i32` element.
pub open spec fn fits_i32(x: int) -> bool {
    i32::MIN <= x <= i32::MAX
}

/// The mathematical values of a buffer of elements.
pub open spec fn ints(s: Seq<i32>) -> Seq<int> {
    s.map_values(|x: i32| x as int)
}

/// The abstract value of an [`NDArray`]: its element sequence and shape.
pub ghost struct NDView {
    pub buf: Seq<i32>,
    pub shape: Seq<usize>,
}

impl NDView {
    /// The buffer holds exactly one element per point of the shape's index
    /// space, in row-major order.
    pub open spec fn wf(self) -> bool {
        self.buf.len() == prod(self.shape)
    }
}

/// The element that the (virtual) expansion of `buf` (of shape `s`) to a
/// broadcast target holds at target coordinate `idx`.
pub open spec fn bc_el(buf: Seq<i32>, s: Seq<usize>, idx: Seq<usize>) -> i32 {
    buf[flat_index(bsrc(idx, s), s)]
}

/// `c` is the element-wise broadcasting sum of `a` and `b`.
pub open spec fn add_output(a: NDView, b: NDView, c: NDView) -> bool {
    c.shape == bc_shape(a.shape, b.shape) && c.buf.len() == prod(c.shape) && forall|idx: Seq<usize>|
        in_bounds(idx, bc_shape(a.shape, b.shape)) ==> #[trigger] c.buf[flat_index(
            idx,
            bc_shape(a.shape, b.shape),
        )] as int == bc_el(a.buf, a.shape, idx) as int + bc_el(b.buf, b.shape, idx) as int
}

/// Every element-wise sum of the broadcast operands is representable.
pub open spec fn add_fits(a: NDView, b: NDView) -> bool {
    forall|idx: Seq<usize>| #[trigger]
        in_bounds(idx, bc_shape(a.shape, b.shape)) ==> fits_i32(
            bc_el(a.buf, a.shape, idx) as int + bc_el(b.buf, b.shape, idx) as int,
        )
}

/// A dense N-dimensional array: a flat row-major buffer plus a shape.
/// Operations produce new arrays rather than mutating in place.
pub struct NDArray {
    buf: Vec<i32>,
    shape: Vec<usize>,
}

impl View for NDArray {
    type V = NDView;

    closed spec fn view(&self) -> NDView {
        NDView { buf: self.buf@, shape: self.shape@ }
    }
}

/// An exact copy of a shape vector.
pub fn copy_usizes(v: &Vec<usize>) -> (r: Vec<usize>)
    ensures
        r@ == v@,
{
    let mut r: Vec<usize> = Vec::new();
    let n = v.len();
    let mut i: usize = 0;
    while i < n
        invariant
            0 <= i <= n,
            n == v@.len(),
            r@ == v@.take(i as int),
        decreases n - i,
    {
        r.push(v[i]);
        proof {
            assert(r@ =~= v@.take(i as int + 1));
        }
        i += 1;
    }
    proof {
        assert(v@.take(n as int) =~= v@);
    }
    r
}

/// An exact copy of an element buffer.
pub fn copy_i32s(v: &Vec<i32>) -> (r: Vec<i32>)
    ensures
        r@ == v@,
{
    let mut r: Vec<i32> = Vec::new();
    let n = v.len();
    let mut i: usize = 0;
    while i < n
        invariant
            0 <= i <= n,
            n == v@.len(),
            r@ == v@.take(i as int),
        decreases n - i,
    {
        r.push(v[i]);
        proof {
            assert(r@ =~= v@.take(i as int + 1));
        }
        i += 1;
    }
    proof {
        assert(v@.take(n as int) =~= v@);
    }
    r
}

/// A copy of a range of a shape vector.
pub fn subvec(v: &Vec<usize>, from: usize, to: usize) -> (r: Vec<usize>)
    requires
        from <= to <= v@.len(),
    ensures
        r@ == v@.subrange(from as int, to as int),
{
    let mut r: Vec<usize> = Vec::new();
    let mut i: usize = from;
    while i < to
        invariant
            from <= i <= to <= v@.len(),
            r@ == v@.subrange(from as int, i as int),
        decreases to - i,
    {
        r.push(v[i]);
        proof {
            assert(r@ =~= v@.subrange(from as int, i as int + 1));
        }
        i += 1;
    }
    r
}

/// The element-wise sum of two equal-length buffers.
pub fn add_same(a: &Vec<i32>, b: &Vec<i32>) -> (r: Vec<i32>)
    requires
        a@.len() == b@.len(),
        forall|i: int| 0 <= i < a@.len() ==> fits_i32(#[trigger] a@[i] as int + b@[i] as int),
    ensures
        r@.len() == a@.len(),
        forall|i: int| 0 <= i < r@.len() ==> #[trigger] r@[i] as int == a@[i] as int + b@[i] as int,
{
    let n = a.len();
    let mut r: Vec<i32> = Vec::new();
    let mut i: usize = 0;
    while i < n
        invariant
            0 <= i <= n,
            n == a@.len(),
            a@.len() == b@.len(),
            r@.len() == i,
            forall|k: int| 0 <= k < a@.len() ==> fits_i32(#[trigger] a@[k] as int + b@[k] as int),
            forall|k: int| 0 <= k < i ==> #[trigger] r@[k] as int == a@[k] as int + b@[k] as int,
        decreases n - i,
    {
        let v = a[i] + b[i];
        r.push(v);
        i += 1;
    }
    r
}

/// Materialize the expansion of `buf` (of shape `shape`) to `target`:
/// left-pad the shape with 1s to the target rank, then repeat data along
/// every axis whose size is 1.  Fails with `ShapeError` exactly when the
/// target has fewer axes or some axis neither matches nor is 1.
pub fn broadcast_to(buf: &Vec<i32>, shape: &Vec<usize>, target: &Vec<usize>) -> (r: Result<
    Vec<i32>,
    AdError,
>)
    requires
        buf@.len() == prod(shape@),
        prod(target@) <= usize::MAX as int,
    ensures
        match r {
            Ok(v) => expandable_to(shape@, target@) && v@.len() == prod(target@) && forall|
                idx: Seq<usize>,
            |
                in_bounds(idx, target@) ==> #[trigger] v@[flat_index(idx, target@)] == bc_el(
                    buf@,
                    shape@,
                    idx,
                ),
            Err(e) => e == AdError::ShapeError && !expandable_to(shape@, target@),
        },
{
    if target.len() < shape.len() {
        return Err(AdError::ShapeError);
    }
    let n = shape.len();
    let tl = target.len();
    let ldiff = tl - n;
    let mut j: usize = 0;
    while j < n
        invariant
            n == shape@.len(),
            tl == target@.len(),
            n <= tl,
            ldiff == tl - n,
            0 <= j <= n,
            forall|i: int|
                0 <= i < j ==> #[trigger] shape@[i] == target@[i + target@.len() - n]
                    || shape@[i] == 1,
        decreases n - j,
    {
        let pd = shape[j];
        let td = target[ldiff + j];
        if pd != td && pd != 1 {
            proof {
                assert(!expandable_to(shape@, target@));
            }
            return Err(AdError::ShapeError);
        }
        j += 1;
    }
    proof {
        assert(expandable_to(shape@, target@));
    }
    let total = match checked_prod(target) {
        Some(t) => t,
        None => {
            proof {
                assert(false);
            }
            0
        },
    };
    let bl = buf.len();
    proof {
        assert(bl as int == prod(shape@));
    }
    let mut out: Vec<i32> = Vec::new();
    let mut k: usize = 0;
    while k < total
        invariant
            total as int == prod(target@),
            buf@.len() == prod(shape@),
            prod(shape@) <= usize::MAX as int,
            shape@.len() <= target@.len(),
            expandable_to(shape@, target@),
            0 <= k <= total,
            out@.len() == k,
            forall|kk: int|
                0 <= kk < k ==> #[trigger] out@[kk] == bc_el(buf@, shape@, unrank(kk, target@)),
        decreases total - k,
    {
        let idx = unrank_exec(k, target);
        proof {
            lemma_bsrc_in_bounds(idx@, shape@, target@);
        }
        let o = src_offset(&idx, shape);
        out.push(buf[o]);
        k += 1;
    }
    proof {
        assert forall|idx: Seq<usize>| in_bounds(idx, target@) implies #[trigger] out@[flat_index(
            idx,
            target@,
        )] == bc_el(buf@, shape@, idx) by {
            lemma_flat_range(idx, target@);
            lemma_unrank_flat(idx, target@);
            assert(out@[flat_index(idx, target@)] == bc_el(
                buf@,
                shape@,
                unrank(flat_index(idx, target@), target@),
            ));
        }
    }
    Ok(out)
}

impl NDArray {
    /// Construct from an exact element buffer and shape; fails with
    /// `ShapeError` exactly when the buffer length disagrees with the
    /// product of the shape.
    pub fn new(buf: Vec<i32>, shape: Vec<usize>) -> (r: Result<NDArray, AdError>)
        ensures
            match r {
                Ok(nd) => buf@.len() == prod(shape@) && nd@.wf() && nd@.buf == buf@ && nd@.shape
                    == shape@,
                Err(e) => e == AdError::ShapeError && buf@.len() != prod(shape@),
            },
    {
        let bl = buf.len();
        proof {
            assert(bl as int == buf@.len());
        }
        match checked_prod(&shape) {
            Some(p) => {
                if bl == p {
                    Ok(NDArray { buf, shape })
                } else {
                    Err(AdError::ShapeError)
                }
            },
            None => Err(AdError::ShapeError),
        }
    }

    /// Internal exact constructor for buffers already known to match.
    pub(crate) fn from_raw(buf: Vec<i32>, shape: Vec<usize>) -> (r: NDArray)
        requires
            buf@.len() == prod(shape@),
        ensures
            r@.wf(),
            r@.buf == buf@,
            r@.shape == shape@,
    {
        NDArray { buf, shape }
    }

    /// An array of the given shape filled with 1, the seed value of
    /// gradient propagation.
    pub fn ones(shape: Vec<usize>) -> (r: NDArray)
        requires
            prod(shape@) <= usize::MAX as int,
        ensures
            r@.wf(),
            r@.shape == shape@,
            forall|i: int| 0 <= i < r@.buf.len() ==> r@.buf[i] == 1i32,
    {
        let total = match checked_prod(&shape) {
            Some(t) => t,
            None => {
                proof {
                    assert(false);
                }
                0
            },
        };
        let mut buf: Vec<i32> = Vec::new();
        let mut i: usize = 0;
        while i < total
            invariant
                0 <= i <= total,
                buf@.len() == i,
                forall|k: int| 0 <= k < i ==> buf@[k] == 1i32,
            decreases total - i,
        {
            buf.push(1);
            i += 1;
        }
        NDArray { buf, shape }
    }

    /// An all-ones array with the same shape as `other`.
    pub fn ones_like(other: &NDArray) -> (r: NDArray)
        requires
            other@.wf(),
        ensures
            r@.wf(),
            r@.shape == other@.shape,
            forall|i: int| 0 <= i < r@.buf.len() ==> r@.buf[i] == 1i32,
    {
        let bl = other.buf.len();
        proof {
            assert(bl as int == prod(other@.shape));
        }
        NDArray::ones(copy_usizes(&other.shape))
    }

    /// The flat element buffer, in row-major order.
    pub fn buf(&self) -> (r: &Vec<i32>)
        ensures
            r@ == self@.buf,
    {
        &self.buf
    }

    /// The shape: the ordered dimension sizes.
    pub fn shape(&self) -> (r: &Vec<usize>)
        ensures
            r@ == self@.shape,
    {
        &self.shape
    }

    /// Element-wise broadcasting sum: merge the two shapes, expand both
    /// operands to the merged shape, and add element by element.  Fails
    /// with `ShapeError` exactly when the shapes are not compatible.
    pub fn add(&self, other: &NDArray) -> (r: Result<NDArray, AdError>)
        requires
            self@.wf(),
            other@.wf(),
            dims_compatible(self@.shape, other@.shape) ==> prod(
                bc_shape(self@.shape, other@.shape),
            ) <= usize::MAX as int && add_fits(self@, other@),
        ensures
            match r {
                Ok(c) => dims_compatible(self@.shape, other@.shape) && c@.wf() && add_output(
                    self@,
                    other@,
                    c@,
                ),
                Err(e) => e == AdError::ShapeError && !dims_compatible(self@.shape, other@.shape),
            },
    {
        let t = match crate::shape::broadcast(&self.shape, &other.shape) {
            Ok(v) => v,
            Err(e) => {
                return Err(e);
            },
        };
        proof {
            lemma_compat_expandable(self@.shape, other@.shape);
        }
        let a_exp = match broadcast_to(&self.buf, &self.shape, &t) {
            Ok(v) => v,
            Err(_) => {
                proof {
                    assert(false);
                }
                return Err(AdError::ShapeError);
            },
        };
        let b_exp = match broadcast_to(&other.buf, &other.shape, &t) {
            Ok(v) => v,
            Err(_) => {
                proof {
                    assert(false);
                }
                return Err(AdError::ShapeError);
            },
        };
        let total = a_exp.len();
        let ghost av = self@;
        let ghost bv = other@;
        let ghost tv = t@;
        let mut out: Vec<i32> = Vec::new();
        let mut k: usize = 0;
        while k < total
            invariant
                tv == bc_shape(av.shape, bv.shape),
                total as int == prod(tv),
                dims_compatible(av.shape, bv.shape),
                add_fits(av, bv),
                a_exp@.len() == prod(tv),
                b_exp@.len() == prod(tv),
                forall|idx: Seq<usize>|
                    in_bounds(idx, tv) ==> #[trigger] a_exp@[flat_index(idx, tv)] == bc_el(
                        av.buf,
                        av.shape,
                        idx,
                    ),
                forall|idx: Seq<usize>|
                    in_bounds(idx, tv) ==> #[trigger] b_exp@[flat_index(idx, tv)] == bc_el(
                        bv.buf,
                        bv.shape,
                        idx,
                    ),
                0 <= k <= total,
                out@.len() == k,
                forall|kk: int|
                    0 <= kk < k ==> #[trigger] out@[kk] as int == bc_el(
                        av.buf,
                        av.shape,
                        unrank(kk, tv),
                    ) as int + bc_el(bv.buf, bv.shape, unrank(kk, tv)) as int,
            decreases total - k,
        {
            proof {
                lemma_unrank(k as int, tv);
                assert(a_exp@[flat_index(unrank(k as int, tv), tv)] == bc_el(
                    av.buf,
                    av.shape,
                    unrank(k as int, tv),
                ));
                assert(b_exp@[flat_index(unrank(k as int, tv), tv)] == bc_el(
                    bv.buf,
                    bv.shape,
                    unrank(k as int, tv),
                ));
                assert(in_bounds(unrank(k as int, tv), tv));
            }
            let v = a_exp[k] + b_exp[k];
            out.push(v);
            k += 1;
        }
        let c = NDArray { buf: out, shape: t };
        proof {
            assert forall|idx: Seq<usize>| in_bounds(idx, bc_shape(av.shape, bv.shape)) implies #[trigger] c@.buf[flat_index(
                idx,
                bc_shape(av.shape, bv.shape),
            )] as int == bc_el(av.buf, av.shape, idx) as int + bc_el(bv.buf, bv.shape, idx) as int by {
                lemma_flat_range(idx, tv);
                lemma_unrank_flat(idx, tv);
                assert(c@.buf[flat_index(idx, tv)] as int == bc_el(
                    av.buf,
                    av.shape,
                    unrank(flat_index(idx, tv), tv),
                ) as int + bc_el(bv.buf, bv.shape, unrank(flat_index(idx, tv), tv)) as int);
            }
        }
        Ok(c)
    }
}

/// The leading (batch) axes of a matmul operand: all but the last two.
pub open spec fn batch_dims(s: Seq<usize>) -> Seq<usize> {
    s.subrange(0, s.len() - 2)
}

/// Matmul accepts the operands: both have rank at least 2, the batch axes
/// are broadcast-compatible, and the inner dimensions agree.
pub open spec fn mm_ok(a: Seq<usize>, b: Seq<usize>) -> bool {
    a.len() >= 2 && b.len() >= 2 && dims_compatible(batch_dims(a), batch_dims(b)) && a[a.len() - 1]
        == b[b.len() - 2]
}

/// The broadcast of the two operands' batch axes.
pub open spec fn mm_batch_shape(a: Seq<usize>, b: Seq<usize>) -> Seq<usize> {
    bc_shape(batch_dims(a), batch_dims(b))
}

/// The result shape: broadcast batch axes, then the outer matrix axes.
pub open spec fn mm_out_shape(a: Seq<usize>, b: Seq<usize>) -> Seq<usize> {
    mm_batch_shape(a, b).push(a[a.len() - 2]).push(b[b.len() - 1])
}

/// The expansion target of the left operand: batch axes plus its own
/// matrix axes.
pub open spec fn mm_a_exp_shape(a: Seq<usize>, b: Seq<usize>) -> Seq<usize> {
    mm_batch_shape(a, b).push(a[a.len() - 2]).push(a[a.len() - 1])
}

/// The expansion target of the right operand.
pub open spec fn mm_b_exp_shape(a: Seq<usize>, b: Seq<usize>) -> Seq<usize> {
    mm_batch_shape(a, b).push(b[b.len() - 2]).push(b[b.len() - 1])
}

/// One product term of output cell `(bidx, i, j)`: the `kk`-th element of
/// row `i` of the left batch slice times the `kk`-th element of column `j`
/// of the right batch slice.
pub open spec fn mm_term(a: NDView, b: NDView, bidx: Seq<usize>, i: usize, j: usize, kk: usize) -> int {
    bc_el(a.buf, a.shape, bidx.push(i).push(kk)) as int * bc_el(
        b.buf,
        b.shape,
        bidx.push(kk).push(j),
    ) as int
}

/// The sum of the first `t` product terms of output cell `(bidx, i, j)`;
/// at `t == n` (the inner dimension) this is the cell's value.
pub open spec fn mm_cell(a: NDView, b: NDView, bidx: Seq<usize>, i: usize, j: usize, t: int) -> int
    decreases t,
{
    if t <= 0 {
        0
    } else {
        mm_cell(a, b, bidx, i, j, t - 1) + mm_term(a, b, bidx, i, j, (t - 1) as usize)
    }
}

/// Every product term and every partial cell sum of the multiplication is
/// representable as an element.
pub open spec fn mm_fits(a: NDView, b: NDView) -> bool {
    (forall|bidx: Seq<usize>, i: usize, j: usize, t: int|
        in_bounds(bidx, mm_batch_shape(a.shape, b.shape)) && i < a.shape[a.shape.len() - 2] && j
            < b.shape[b.shape.len() - 1] && 0 <= t <= a.shape[a.shape.len() - 1] ==> fits_i32(
            #[trigger] mm_cell(a, b, bidx, i, j, t),
        )) && (forall|bidx: Seq<usize>, i: usize, j: usize, kk: usize|
        in_bounds(bidx, mm_batch_shape(a.shape, b.shape)) && i < a.shape[a.shape.len() - 2] && j
            < b.shape[b.shape.len() - 1] && kk < a.shape[a.shape.len() - 1] ==> fits_i32(
            #[trigger] mm_term(a, b, bidx, i, j, kk),
        ))
}

/// The element count of a two-axis shape.
proof fn lemma_prod_pair(x: usize, y: usize)
    ensures
        prod(seq![x, y]) == (x as int) * (y as int),
{
    assert(seq![x, y].drop_last() =~= seq![x]);
    assert(seq![x].drop_last() =~= Seq::<usize>::empty());
    assert(seq![x, y].last() == y);
    assert(seq![x].last() == x);
    assert(prod(Seq::<usize>::empty()) == 1);
    assert(prod(seq![x]) == x as int);
    assert(prod(seq![x, y]) == prod(seq![x]) * (y as int));
}

/// Operands with compatible batch axes expand to their matmul expansion
/// targets.
proof fn lemma_mm_expandable(a: Seq<usize>, b: Seq<usize>)
    requires
        a.len() >= 2,
        b.len() >= 2,
        dims_compatible(batch_dims(a), batch_dims(b)),
    ensures
        expandable_to(a, mm_a_exp_shape(a, b)),
        expandable_to(b, mm_b_exp_shape(a, b)),
{
    let bcs = mm_batch_shape(a, b);
    let at = mm_a_exp_shape(a, b);
    let bt = mm_b_exp_shape(a, b);
    assert(bcs.len() == a.len() - 2);
    assert forall|i: int| 0 <= i < a.len() implies #[trigger] a[i] == at[i + at.len() - a.len()]
        || a[i] == 1 by {
        if i < a.len() - 2 {
            assert(at[i] == bcs[i]);
            assert(batch_dims(a)[i] == a[i]);
            assert(batch_dims(b)[i] == b[i]);
        } else if i == a.len() - 2 {
            assert(at[i] == a[a.len() - 2]);
        } else {
            assert(at[i] == a[a.len() - 1]);
        }
    }
    assert forall|i: int| 0 <= i < b.len() implies #[trigger] b[i] == bt[i + bt.len() - b.len()]
        || b[i] == 1 by {
        if i < b.len() - 2 {
            assert(bt[i] == bcs[i]);
            assert(batch_dims(a)[i] == a[i]);
            assert(batch_dims(b)[i] == b[i]);
        } else if i == b.len() - 2 {
            assert(bt[i] == b[b.len() - 2]);
        } else {
            assert(bt[i] == b[b.len() - 1]);
        }
    }
}

/// One output cell: the dot product of row `i` of the left batch slice and
/// column `j` of the right batch slice, both read from the materialized
/// expansions.
#[verifier::loop_isolation(false)]
fn mm_dot(
    a_exp: &Vec<i32>,
    b_exp: &Vec<i32>,
    bk: usize,
    i: usize,
    j: usize,
    m: usize,
    n: usize,
    p: usize,
    Ghost(av): Ghost<NDView>,
    Ghost(bv): Ghost<NDView>,
) -> (r: i32)
    requires
        mm_ok(av.shape, bv.shape),
        mm_fits(av, bv),
        m == av.shape[av.shape.len() - 2],
        n == av.shape[av.shape.len() - 1],
        p == bv.shape[bv.shape.len() - 1],
        (bk as int) < prod(mm_batch_shape(av.shape, bv.shape)),
        i < m,
        j < p,
        a_exp@.len() == prod(mm_a_exp_shape(av.shape, bv.shape)),
        b_exp@.len() == prod(mm_b_exp_shape(av.shape, bv.shape)),
        forall|idx: Seq<usize>|
            in_bounds(idx, mm_a_exp_shape(av.shape, bv.shape)) ==> #[trigger] a_exp@[flat_index(
                idx,
                mm_a_exp_shape(av.shape, bv.shape),
            )] == bc_el(av.buf, av.shape, idx),
        forall|idx: Seq<usize>|
            in_bounds(idx, mm_b_exp_shape(av.shape, bv.shape)) ==> #[trigger] b_exp@[flat_index(
                idx,
                mm_b_exp_shape(av.shape, bv.shape),
            )] == bc_el(bv.buf, bv.shape, idx),
    ensures
        r as int == mm_cell(
            av,
            bv,
            unrank(bk as int, mm_batch_shape(av.shape, bv.shape)),
            i,
            j,
            n as int,
        ),
{
    let ghost bcs = mm_batch_shape(av.shape, bv.shape);
    let ghost bidx = unrank(bk as int, bcs);
    let ghost a_t = mm_a_exp_shape(av.shape, bv.shape);
    let ghost b_t = mm_b_exp_shape(av.shape, bv.shape);
    let la = a_exp.len();
    let lb = b_exp.len();
    proof {
        lemma_unrank(bk as int, bcs);
        assert(la as int == prod(a_t));
        assert(lb as int == prod(b_t));
    }
    let mut acc: i32 = 0;
    let mut kk: usize = 0;
    while kk < n
        invariant
            0 <= kk <= n,
            acc as int == mm_cell(av, bv, bidx, i, j, kk as int),
        decreases n - kk,
    {
        let ghost ca = bidx.push(i).push(kk);
        let ghost cb = bidx.push(kk).push(j);
        proof {
            assert(in_bounds(ca, a_t)) by {
                assert forall|q: int| 0 <= q < a_t.len() implies #[trigger] ca[q] < a_t[q] by {
                    if q < bcs.len() {
                        assert(ca[q] == bidx[q]);
                        assert(a_t[q] == bcs[q]);
                    } else if q == bcs.len() {
                        assert(ca[q] == i);
                        assert(a_t[q] == m);
                    } else {
                        assert(ca[q] == kk);
                        assert(a_t[q] == n);
                    }
                }
            }
            assert(in_bounds(cb, b_t)) by {
                assert forall|q: int| 0 <= q < b_t.len() implies #[trigger] cb[q] < b_t[q] by {
                    if q < bcs.len() {
                        assert(cb[q] == bidx[q]);
                        assert(b_t[q] == bcs[q]);
                    } else if q == bcs.len() {
                        assert(cb[q] == kk);
                        assert(b_t[q] == n);
                    } else {
                        assert(cb[q] == j);
                        assert(b_t[q] == p);
                    }
                }
            }
            lemma_flat_range(ca, a_t);
            lemma_flat_range(cb, b_t);
            // Horner decomposition of the two flat offsets
            assert(ca.drop_last() =~= bidx.push(i));
            assert(a_t.drop_last() =~= bcs.push(m));
            assert(bidx.push(i).drop_last() =~= bidx);
            assert(bcs.push(m).drop_last() =~= bcs);
            assert(flat_index(bidx.push(i), bcs.push(m)) == (bk as int) * (m as int) + i);
            assert(flat_index(ca, a_t) == ((bk as int) * (m as int) + i) * (n as int) + kk);
            assert(cb.drop_last() =~= bidx.push(kk));
            assert(b_t.drop_last() =~= bcs.push(n));
            assert(bidx.push(kk).drop_last() =~= bidx);
            assert(bcs.push(n).drop_last() =~= bcs);
            assert(flat_index(bidx.push(kk), bcs.push(n)) == (bk as int) * (n as int) + kk);
            assert(flat_index(cb, b_t) == ((bk as int) * (n as int) + kk) * (p as int) + j);
            assert(a_exp@[flat_index(ca, a_t)] == bc_el(av.buf, av.shape, ca));
            assert(b_exp@[flat_index(cb, b_t)] == bc_el(bv.buf, bv.shape, cb));
            assert(in_bounds(bidx.push(i), bcs.push(m))) by {
                assert(ca.drop_last() =~= bidx.push(i));
                assert(a_t.drop_last() =~= bcs.push(m));
            }
            lemma_flat_range(bidx.push(i), bcs.push(m));
            assert(in_bounds(bidx.push(kk), bcs.push(n))) by {
                assert(cb.drop_last() =~= bidx.push(kk));
                assert(b_t.drop_last() =~= bcs.push(n));
            }
            lemma_flat_range(bidx.push(kk), bcs.push(n));
            assert(((bk as int) * (m as int) + i) <= ((bk as int) * (m as int) + i) * (n as int))
                by (nonlinear_arith)
                requires
                    (bk as int) * (m as int) + i >= 0,
                    n as int >= 1,
            ;
            assert(((bk as int) * (n as int) + kk) <= ((bk as int) * (n as int) + kk) * (p as int))
                by (nonlinear_arith)
                requires
                    (bk as int) * (n as int) + kk >= 0,
                    p as int >= 1,
            ;
            assert(fits_i32(mm_term(av, bv, bidx, i, j, kk)));
            assert(fits_i32(mm_cell(av, bv, bidx, i, j, kk as int + 1)));
            assert(mm_cell(av, bv, bidx, i, j, kk as int + 1) == mm_cell(av, bv, bidx, i, j, kk as int)
                + mm_term(av, bv, bidx, i, j, kk));
        }
        let oa = (bk * m + i) * n + kk;
        let ob = (bk * n + kk) * p + j;
        let x = a_exp[oa];
        let y = b_exp[ob];
        acc = acc + x * y;
        kk += 1;
    }
    acc
}

impl NDArray {
    /// Batched matrix multiplication.  Both operands must have rank at
    /// least 2 (else `DimensionError`); the leading batch axes are merged
    /// under the equal-rank broadcasting rule (else `ShapeError`); the
    /// inner matrix dimensions must agree (else `DimensionError`).  Every
    /// batch slice of the result is the standard matrix product of the
    /// corresponding slices of the broadcast-expanded operands.
    #[verifier::loop_isolation(false)]
    #[verifier::rlimit(100)]
    pub fn matmul(&self, other: &NDArray) -> (r: Result<NDArray, AdError>)
        requires
            self@.wf(),
            other@.wf(),
            mm_ok(self@.shape, other@.shape) ==> prod(mm_a_exp_shape(self@.shape, other@.shape))
                <= usize::MAX as int && prod(mm_b_exp_shape(self@.shape, other@.shape))
                <= usize::MAX as int && prod(mm_out_shape(self@.shape, other@.shape))
                <= usize::MAX as int && mm_fits(self@, other@),
        ensures
            match r {
                Ok(c) => mm_ok(self@.shape, other@.shape) && c@.wf() && c@.shape == mm_out_shape(
                    self@.shape,
                    other@.shape,
                ) && forall|bidx: Seq<usize>, ii: usize, jj: usize|
                    in_bounds(bidx, mm_batch_shape(self@.shape, other@.shape)) && ii
                        < self@.shape[self@.shape.len() - 2] && jj < other@.shape[other@.shape.len()
                        - 1] ==> #[trigger] c@.buf[flat_index(
                        bidx.push(ii).push(jj),
                        mm_out_shape(self@.shape, other@.shape),
                    )] as int == mm_cell(
                        self@,
                        other@,
                        bidx,
                        ii,
                        jj,
                        self@.shape[self@.shape.len() - 1] as int,
                    ),
                Err(e) => if e == AdError::DimensionError {
                    self@.shape.len() < 2 || other@.shape.len() < 2 || (dims_compatible(
                        batch_dims(self@.shape),
                        batch_dims(other@.shape),
                    ) && self@.shape[self@.shape.len() - 1] != other@.shape[other@.shape.len() - 2])
                } else {
                    e == AdError::ShapeError && self@.shape.len() >= 2 && other@.shape.len() >= 2
                        && !dims_compatible(batch_dims(self@.shape), batch_dims(other@.shape))
                },
            },
    {
        let ra = self.shape.len();
        let rb = other.shape.len();
        if ra < 2 || rb < 2 {
            return Err(AdError::DimensionError);
        }
        let a_b = subvec(&self.shape, 0, ra - 2);
        let b_b = subvec(&other.shape, 0, rb - 2);
        proof {
            assert(a_b@ =~= batch_dims(self@.shape));
            assert(b_b@ =~= batch_dims(other@.shape));
        }
        let bcb = match crate::shape::broadcast(&a_b, &b_b) {
            Ok(v) => v,
            Err(_) => {
                return Err(AdError::ShapeError);
            },
        };
        let m = self.shape[ra - 2];
        let n = self.shape[ra - 1];
        let p = other.shape[rb - 1];
        if n != other.shape[rb - 2] {
            return Err(AdError::DimensionError);
        }
        let ghost av = self@;
        let ghost bv = other@;
        let ghost bcs = mm_batch_shape(av.shape, bv.shape);
        proof {
            assert(mm_ok(av.shape, bv.shape));
            assert(bcb@ == bcs);
            lemma_mm_expandable(av.shape, bv.shape);
        }
        let mut a_t = copy_usizes(&bcb);
        a_t.push(m);
        a_t.push(n);
        let mut b_t = copy_usizes(&bcb);
        b_t.push(n);
        b_t.push(p);
        let mut out_sh = copy_usizes(&bcb);
        out_sh.push(m);
        out_sh.push(p);
        proof {
            assert(a_t@ =~= mm_a_exp_shape(av.shape, bv.shape));
            assert(b_t@ =~= mm_b_exp_shape(av.shape, bv.shape));
            assert(out_sh@ =~= mm_out_shape(av.shape, bv.shape));
            assert(out_sh@ =~= bcs + seq![m, p]);
            lemma_prod_concat(bcs, seq![m, p]);
            lemma_prod_pair(m, p);
        }
        let a_exp = match broadcast_to(&self.buf, &self.shape, &a_t) {
            Ok(v) => v,
            Err(_) => {
                proof {
                    assert(false);
                }
                return Err(AdError::ShapeError);
            },
        };
        let b_exp = match broadcast_to(&other.buf, &other.shape, &b_t) {
            Ok(v) => v,
            Err(_) => {
                proof {
                    assert(false);
                }
                return Err(AdError::ShapeError);
            },
        };
        let total_out = match checked_prod(&out_sh) {
            Some(v) => v,
            None => {
                proof {
                    assert(false);
                }
                0
            },
        };
        let mut out: Vec<i32> = Vec::new();
        if total_out == 0 {
            proof {
                assert forall|bidx: Seq<usize>, ii: usize, jj: usize|
                    in_bounds(bidx, bcs) && ii < m && jj < p implies #[trigger] out@[flat_index(
                    bidx.push(ii).push(jj),
                    mm_out_shape(av.shape, bv.shape),
                )] as int == mm_cell(av, bv, bidx, ii, jj, n as int) by {
                    assert forall|q: int| 0 <= q < bcs.len() implies bcs[q] >= 1 by {
                        assert(bidx[q] < bcs[q]);
                    }
                    lemma_prod_all_pos(bcs);
                    assert(prod(bcs) * ((m as int) * (p as int)) >= 1) by (nonlinear_arith)
                        requires
                            prod(bcs) >= 1,
                            m as int >= 1,
                            p as int >= 1,
                    ;
                    assert(false);
                }
            }
            let c = NDArray { buf: out, shape: out_sh };
            return Ok(c);
        }
        proof {
            lemma_prod_positive_dims(out_sh@);
            assert forall|q: int| 0 <= q < bcs.len() implies #[trigger] bcs[q] >= 1 by {
                assert(out_sh@[q] == bcs[q]);
            }
            lemma_prod_all_pos(bcs);
            assert(m >= 1 && p >= 1) by {
                assert(out_sh@[out_sh@.len() - 2] == m);
                assert(out_sh@[out_sh@.len() - 1] == p);
            }
            assert((m as int) * (p as int) >= 1) by (nonlinear_arith)
                requires
                    m as int >= 1,
                    p as int >= 1,
            ;
            assert((m as int) * (p as int) <= prod(bcs) * ((m as int) * (p as int)))
                by (nonlinear_arith)
                requires
                    prod(bcs) >= 1,
                    m as int >= 1,
                    p as int >= 1,
            ;
            assert(prod(bcs) <= prod(bcs) * ((m as int) * (p as int))) by (nonlinear_arith)
                requires
                    prod(bcs) >= 1,
                    (m as int) * (p as int) >= 1,
            ;
        }
        let mp = m * p;
        let total_b = match checked_prod(&bcb) {
            Some(v) => v,
            None => {
                proof {
                    assert(false);
                }
                0
            },
        };
        let mut it = MultiIndexIterator::new(copy_usizes(&bcb));
        let mut bk: usize = 0;
        while bk < total_b
            invariant
                it.wf(),
                it.shape_view() == bcs,
                it.pos_view() == bk as int,
                0 <= bk <= total_b,
                out@.len() as int == (bk as int) * (mp as int),
                forall|bidx: Seq<usize>, ii: usize, jj: usize|
                    in_bounds(bidx, bcs) && ii < m && jj < p && 0 <= flat_index(
                        bidx.push(ii).push(jj),
                        out_sh@,
                    ) < out@.len() ==> #[trigger] out@[flat_index(
                        bidx.push(ii).push(jj),
                        out_sh@,
                    )] as int == mm_cell(av, bv, bidx, ii, jj, n as int),
            decreases total_b - bk,
        {
            let idx = match it.next() {
                Some(v) => v,
                None => {
                    proof {
                        assert(false);
                    }
                    Vec::new()
                },
            };
            let ghost bidx0 = unrank(bk as int, bcs);
            proof {
                lemma_unrank(bk as int, bcs);
                assert((bk as int) * (mp as int) <= ((bk as int) + 1) * (mp as int) <= prod(bcs) * (
                (m as int) * (p as int))) by (nonlinear_arith)
                    requires
                        0 <= bk as int,
                        (bk as int) + 1 <= prod(bcs),
                        mp as int >= 0,
                        mp as int == (m as int) * (p as int),
                ;
            }
            let mut i: usize = 0;
            while i < m
                invariant
                    0 <= i <= m,
                    out@.len() as int == (bk as int) * (mp as int) + (i as int) * (p as int),
                    forall|bidx: Seq<usize>, ii: usize, jj: usize|
                        in_bounds(bidx, bcs) && ii < m && jj < p && 0 <= flat_index(
                            bidx.push(ii).push(jj),
                            out_sh@,
                        ) < out@.len() ==> #[trigger] out@[flat_index(
                            bidx.push(ii).push(jj),
                            out_sh@,
                        )] as int == mm_cell(av, bv, bidx, ii, jj, n as int),
                decreases m - i,
            {
                let mut j: usize = 0;
                while j < p
                    invariant
                        0 <= j <= p,
                        out@.len() as int == (bk as int) * (mp as int) + (i as int) * (p as int)
                            + j as int,
                        forall|bidx: Seq<usize>, ii: usize, jj: usize|
                            in_bounds(bidx, bcs) && ii < m && jj < p && 0 <= flat_index(
                                bidx.push(ii).push(jj),
                                out_sh@,
                            ) < out@.len() ==> #[trigger] out@[flat_index(
                                bidx.push(ii).push(jj),
                                out_sh@,
                            )] as int == mm_cell(av, bv, bidx, ii, jj, n as int),
                    decreases p - j,
                {
                    let v = mm_dot(&a_exp, &b_exp, bk, i, j, m, n, p, Ghost(av), Ghost(bv));
                    let ghost l0 = out@.len() as int;
                    let ghost c2 = bidx0.push(i).push(j);
                    let ghost old_out = out@;
                    proof {
                        assert(in_bounds(c2, out_sh@)) by {
                            assert forall|q: int| 0 <= q < out_sh@.len() implies #[trigger] c2[q]
                                < out_sh@[q] by {
                                if q < bcs.len() {
                                    assert(c2[q] == bidx0[q]);
                                    assert(out_sh@[q] == bcs[q]);
                                } else if q == bcs.len() {
                                    assert(c2[q] == i);
                                    assert(out_sh@[q] == m);
                                } else {
                                    assert(c2[q] == j);
                                    assert(out_sh@[q] == p);
                                }
                            }
                        }
                        assert(c2.drop_last() =~= bidx0.push(i));
                        assert(out_sh@.drop_last() =~= bcs.push(m));
                        assert(bidx0.push(i).drop_last() =~= bidx0);
                        assert(bcs.push(m).drop_last() =~= bcs);
                        assert(flat_index(bidx0.push(i), bcs.push(m)) == (bk as int) * (m as int)
                            + i);
                        assert(flat_index(c2, out_sh@) == ((bk as int) * (m as int) + i) * (
                        p as int) + j);
                        assert(((bk as int) * (m as int) + i) * (p as int) + j == (bk as int) * ((
                        m as int) * (p as int)) + (i as int) * (p as int) + j) by (nonlinear_arith);
                        assert(flat_index(c2, out_sh@) == l0);
                    }
                    out.push(v);
                    proof {
                        assert forall|bidx: Seq<usize>, ii: usize, jj: usize|
                            in_bounds(bidx, bcs) && ii < m && jj < p && 0 <= flat_index(
                                bidx.push(ii).push(jj),
                                out_sh@,
                            ) < out@.len() implies #[trigger] out@[flat_index(
                            bidx.push(ii).push(jj),
                            out_sh@,
                        )] as int == mm_cell(av, bv, bidx, ii, jj, n as int) by {
                            let c1 = bidx.push(ii).push(jj);
                            assert(in_bounds(c1, out_sh@)) by {
                                assert forall|q: int| 0 <= q < out_sh@.len() implies #[trigger] c1[q]
                                    < out_sh@[q] by {
                                    if q < bcs.len() {
                                        assert(c1[q] == bidx[q]);
                                        assert(out_sh@[q] == bcs[q]);
                                    } else if q == bcs.len() {
                                        assert(c1[q] == ii);
                                        assert(out_sh@[q] == m);
                                    } else {
                                        assert(c1[q] == jj);
                                        assert(out_sh@[q] == p);
                                    }
                                }
                            }
                            if flat_index(c1, out_sh@) < l0 {
                                assert(out@[flat_index(c1, out_sh@)] == old_out[flat_index(
                                    c1,
                                    out_sh@,
                                )]);
                            } else {
                                lemma_flat_range(c1, out_sh@);
                                assert(flat_index(c1, out_sh@) == l0);
                                lemma_flat_injective(c1, c2, out_sh@);
                                assert(c1.last() == jj);
                                assert(c2.last() == j);
                                assert(c1.drop_last() =~= bidx.push(ii));
                                assert(c2.drop_last() =~= bidx0.push(i));
                                assert(bidx.push(ii).last() == ii);
                                assert(bidx0.push(i).last() == i);
                                assert(bidx.push(ii).drop_last() =~= bidx);
                                assert(bidx0.push(i).drop_last() =~= bidx0);
                                assert(bidx == bidx0 && ii == i && jj == j);
                                assert(out@[l0] == v);
                            }
                        }
                    }
                    j += 1;
                }
                i += 1;
                proof {
                    assert((bk as int) * (mp as int) + ((i as int) - 1) * (p as int) + p as int == (
                    bk as int) * (mp as int) + (i as int) * (p as int)) by (nonlinear_arith);
                }
            }
            bk += 1;
            proof {
                assert(((bk as int) - 1) * (mp as int) + (m as int) * (p as int) == (bk as int) * (
                mp as int)) by (nonlinear_arith)
                    requires
                        mp as int == (m as int) * (p as int),
                ;
            }
        }
        proof {
            assert(out@.len() as int == prod(out_sh@)) by {
                assert((total_b as int) * (mp as int) == prod(bcs) * ((m as int) * (p as int)))
                    by (nonlinear_arith)
                    requires
                        total_b as int == prod(bcs),
                        mp as int == (m as int) * (p as int),
                ;
            }
        }
        let c = NDArray { buf: out, shape: out_sh };
        proof {
            assert forall|bidx: Seq<usize>, ii: usize, jj: usize|
                in_bounds(bidx, bcs) && ii < m && jj < p implies #[trigger] c@.buf[flat_index(
                bidx.push(ii).push(jj),
                mm_out_shape(av.shape, bv.shape),
            )] as int == mm_cell(av, bv, bidx, ii, jj, n as int) by {
                let c1 = bidx.push(ii).push(jj);
                assert(in_bounds(c1, out_sh@)) by {
                    assert forall|q: int| 0 <= q < out_sh@.len() implies #[trigger] c1[q]
                        < out_sh@[q] by {
                        if q < bcs.len() {
                            assert(c1[q] == bidx[q]);
                            assert(out_sh@[q] == bcs[q]);
                        } else if q == bcs.len() {
                            assert(c1[q] == ii);
                            assert(out_sh@[q] == m);
                        } else {
                            assert(c1[q] == jj);
                            assert(out_sh@[q] == p);
                        }
                    }
                }
                lemma_flat_range(c1, out_sh@);
            }
        }
        Ok(c)
    }
}

/// The sum of those elements among the first `upto` of gradient `g` (laid
/// out over shape `t`) that broadcasting maps to source position `j` of
/// shape `s`.
pub open spec fn reduce_sum(g: Seq<int>, t: Seq<usize>, s: Seq<usize>, j: int, upto: int) -> int
    decreases upto,
{
    if upto <= 0 {
        0
    } else {
        reduce_sum(g, t, s, j, upto - 1) + if flat_index(bsrc(unrank(upto - 1, t), s), s) == j {
            g[upto - 1]
        } else {
            0
        }
    }
}

/// A gradient of shape `t` summed back down to shape `s`: every target
/// position contributes to the source position it reads under
/// broadcasting.
pub open spec fn reduce_grad(g: Seq<int>, t: Seq<usize>, s: Seq<usize>) -> Seq<int> {
    Seq::new(prod(s) as nat, |j: int| reduce_sum(g, t, s, j, prod(t)))
}

/// Every partial sum of the reduction is representable as an element.
pub open spec fn reduce_fits(g: Seq<int>, t: Seq<usize>, s: Seq<usize>) -> bool {
    forall|j: int, upto: int|
        0 <= j < prod(s) && 0 <= upto <= prod(t) ==> fits_i32(
            #[trigger] reduce_sum(g, t, s, j, upto),
        )
}

/// In a same-shape reduction, position `j` collects exactly its own
/// element.
pub proof fn lemma_reduce_sum_identity(g: Seq<int>, s: Seq<usize>, j: int, upto: int)
    requires
        0 <= upto <= prod(s),
        0 <= j < prod(s),
    ensures
        reduce_sum(g, s, s, j, upto) == if j < upto {
            g[j]
        } else {
            0
        },
    decreases upto,
{
    if upto > 0 {
        lemma_reduce_sum_identity(g, s, j, upto - 1);
        let k = upto - 1;
        lemma_unrank(k, s);
        assert(bsrc(unrank(k, s), s) =~= unrank(k, s));
    }
}

/// Reduction law: reducing a gradient onto its own shape returns it
/// unchanged.
pub proof fn lemma_reduce_identity(g: Seq<int>, s: Seq<usize>)
    requires
        g.len() == prod(s),
    ensures
        reduce_grad(g, s, s) == g,
{
    lemma_prod_nonneg(s);
    assert forall|j: int| 0 <= j < prod(s) implies reduce_grad(g, s, s)[j] == g[j] by {
        lemma_reduce_sum_identity(g, s, j, prod(s));
    }
    assert(reduce_grad(g, s, s) =~= g);
}

/// Sum a gradient laid out over shape `t` back down to shape `s` (which
/// must be expandable to `t`): axes the source lacked or held with size 1
/// are summed out.
#[verifier::loop_isolation(false)]
pub fn reduce_to(g: &Vec<i32>, t: &Vec<usize>, s: &Vec<usize>) -> (r: Vec<i32>)
    requires
        g@.len() == prod(t@),
        prod(s@) <= usize::MAX as int,
        expandable_to(s@, t@),
        reduce_fits(ints(g@), t@, s@),
    ensures
        r@.len() == prod(s@),
        ints(r@) == reduce_grad(ints(g@), t@, s@),
{
    let ghost gv = ints(g@);
    let ps = match checked_prod(s) {
        Some(v) => v,
        None => {
            proof {
                assert(false);
            }
            0
        },
    };
    let mut r: Vec<i32> = Vec::new();
    let mut z: usize = 0;
    while z < ps
        invariant
            r@.len() == z,
            0 <= z <= ps,
            forall|q: int| 0 <= q < z ==> r@[q] == 0i32,
        decreases ps - z,
    {
        r.push(0);
        z += 1;
    }
    let total = g.len();
    let mut k: usize = 0;
    while k < total
        invariant
            0 <= k <= total,
            r@.len() == ps,
            forall|q: int|
                0 <= q < ps ==> #[trigger] r@[q] as int == reduce_sum(gv, t@, s@, q, k as int),
        decreases total - k,
    {
        let idx = unrank_exec(k, t);
        proof {
            lemma_bsrc_in_bounds(idx@, s@, t@);
        }
        let o = src_offset(&idx, s);
        let ghost r0 = r@;
        proof {
            assert(flat_index(bsrc(unrank(k as int, t@), s@), s@) == o as int);
            assert(reduce_sum(gv, t@, s@, o as int, k as int + 1) == reduce_sum(
                gv,
                t@,
                s@,
                o as int,
                k as int,
            ) + gv[k as int]);
            assert(gv[k as int] == g@[k as int] as int);
            assert(fits_i32(reduce_sum(gv, t@, s@, o as int, k as int + 1)));
        }
        let cur = r[o];
        let val = cur + g[k];
        r.set(o, val);
        proof {
            assert forall|q: int| 0 <= q < ps implies #[trigger] r@[q] as int == reduce_sum(
                gv,
                t@,
                s@,
                q,
                k as int + 1,
            ) by {
                if q == o as int {
                } else {
                    assert(r@[q] == r0[q]);
                    assert(reduce_sum(gv, t@, s@, q, k as int + 1) == reduce_sum(
                        gv,
                        t@,
                        s@,
                        q,
                        k as int,
                    ));
                }
            }
        }
        k += 1;
    }
    proof {
        assert(ints(r@) =~= reduce_grad(gv, t@, s@));
    }
    r
}


} // verus!
