//! Shape and stride arithmetic: row-major strides, flat indexing of
//! multi-dimensional coordinates, the inverse unranking map, and the
//! broadcasting rules on shapes.

use vstd::arithmetic::div_mod::*;
use vstd::prelude::*;

use crate::AdError;

verus! {

/// The number of elements of an array with shape `s`: the product of all
/// dimension sizes.  The empty (rank-0) shape describes a scalar and has
/// product 1.
pub open spec fn prod(s: Seq<usize>) -> int
    decreases s.len(),
{
    if s.len() == 0 {
        1
    } else {
        prod(s.drop_last()) * (s.last() as int)
    }
}

/// `idx` is a coordinate tuple inside the index space of shape `s`.
pub open spec fn in_bounds(idx: Seq<usize>, s: Seq<usize>) -> bool {
    idx.len() == s.len() && forall|i: int| 0 <= i < s.len() ==> idx[i] < s[i]
}

/// The row-major flat position of coordinate `idx` in shape `s` (Horner
/// form; equal to the stride-weighted sum, see
/// `lemma_flat_index_is_stride_sum`).
pub open spec fn flat_index(idx: Seq<usize>, s: Seq<usize>) -> int
    decreases s.len(),
{
    if s.len() == 0 {
        0
    } else {
        flat_index(idx.drop_last(), s.drop_last()) * (s.last() as int) + (idx.last() as int)
    }
}

/// The coordinate tuple of the `k`-th element of shape `s` in row-major
/// order: the inverse of `flat_index`.
pub open spec fn unrank(k: int, s: Seq<usize>) -> Seq<usize>
    decreases s.len(),
{
    if s.len() == 0 {
        Seq::empty()
    } else {
        unrank(k / (s.last() as int), s.drop_last()).push((k % (s.last() as int)) as usize)
    }
}

/// The row-major strides of shape `s`: entry `i` is the product of the
/// sizes after axis `i`.
pub open spec fn stride_seq(s: Seq<usize>) -> Seq<int> {
    Seq::new(s.len(), |i: int| prod(s.subrange(i + 1, s.len() as int)))
}

/// The sum of `idx[i] * w[i]` over all axes: how a buffer offset is formed
/// from a coordinate and the strides.
pub open spec fn weighted_sum(idx: Seq<usize>, w: Seq<int>) -> int
    decreases idx.len(),
{
    if idx.len() == 0 {
        0
    } else {
        (idx[0] as int) * w[0] + weighted_sum(idx.drop_first(), w.drop_first())
    }
}

/// Every suffix product of `s` fits in a machine word, so that the stride
/// vector itself is representable.
pub open spec fn strides_fit(s: Seq<usize>) -> bool {
    forall|i: int| 0 <= i <= s.len() ==> prod(#[trigger] s.subrange(i, s.len() as int)) <= usize::MAX as int
}

/// Two equal-rank shapes can be merged element-wise: on every axis the
/// sizes agree or at least one of them is 1.
pub open spec fn dims_compatible(a: Seq<usize>, b: Seq<usize>) -> bool {
    a.len() == b.len() && forall|i: int| 0 <= i < a.len() ==> a[i] == b[i] || a[i] == 1 || b[i] == 1
}

/// The merged shape of two compatible equal-rank shapes: on each axis the
/// non-1 size (the common size when they agree).
pub open spec fn bc_shape(a: Seq<usize>, b: Seq<usize>) -> Seq<usize> {
    Seq::new(a.len(), |i: int| if a[i] != 1 { a[i] } else { b[i] })
}

/// Shape `s` can be expanded to target `t` (of possibly higher rank):
/// after left-padding `s` with 1s to `t`'s rank, every axis agrees with the
/// target or is 1.
pub open spec fn expandable_to(s: Seq<usize>, t: Seq<usize>) -> bool {
    s.len() <= t.len() && forall|i: int|
        0 <= i < s.len() ==> #[trigger] s[i] == t[i + t.len() - s.len()] || s[i] == 1
}

/// The source coordinate of target coordinate `idx` under broadcasting from
/// shape `s`: leading padded axes are dropped and axes of size 1 read
/// position 0.
pub open spec fn bsrc(idx: Seq<usize>, s: Seq<usize>) -> Seq<usize> {
    Seq::new(s.len(), |i: int| if s[i] == 1 { 0 } else { idx[i + idx.len() - s.len()] })
}

pub proof fn lemma_prod_nonneg(s: Seq<usize>)
    ensures
        prod(s) >= 0,
    decreases s.len(),
{
    if s.len() > 0 {
        lemma_prod_nonneg(s.drop_last());
        assert(prod(s.drop_last()) * (s.last() as int) >= 0) by (nonlinear_arith)
            requires
                prod(s.drop_last()) >= 0,
                s.last() as int >= 0,
        ;
    }
}

/// A shape with a zero-sized axis has no elements.
pub proof fn lemma_prod_zero_dim(s: Seq<usize>, i: int)
    requires
        0 <= i < s.len(),
        s[i] == 0,
    ensures
        prod(s) == 0,
    decreases s.len(),
{
    if i == s.len() - 1 {
        assert(prod(s) == prod(s.drop_last()) * 0);
    } else {
        lemma_prod_zero_dim(s.drop_last(), i);
    }
}

/// A shape with a positive number of elements has no zero-sized axis.
pub proof fn lemma_prod_positive_dims(s: Seq<usize>)
    requires
        prod(s) > 0,
    ensures
        forall|i: int| 0 <= i < s.len() ==> s[i] >= 1,
{
    assert forall|i: int| 0 <= i < s.len() implies s[i] >= 1 by {
        if s[i] == 0 {
            lemma_prod_zero_dim(s, i);
        }
    }
}

/// A shape whose axes are all positive has a positive number of elements.
pub proof fn lemma_prod_all_pos(s: Seq<usize>)
    requires
        forall|i: int| 0 <= i < s.len() ==> s[i] >= 1,
    ensures
        prod(s) >= 1,
    decreases s.len(),
{
    if s.len() > 0 {
        lemma_prod_all_pos(s.drop_last());
        assert(prod(s.drop_last()) * (s.last() as int) >= 1) by (nonlinear_arith)
            requires
                prod(s.drop_last()) >= 1,
                s.last() as int >= 1,
        ;
    }
}

/// `prod` also unfolds from the front.
pub proof fn lemma_prod_first(s: Seq<usize>)
    requires
        s.len() > 0,
    ensures
        prod(s) == (s[0] as int) * prod(s.drop_first()),
    decreases s.len(),
{
    if s.len() == 1 {
        assert(s.drop_last() =~= Seq::<usize>::empty());
        assert(s.drop_first() =~= Seq::<usize>::empty());
    } else {
        lemma_prod_first(s.drop_last());
        assert(s.drop_last().drop_first() =~= s.drop_first().drop_last());
        assert(s.drop_first().last() == s.last());
        assert(s.drop_last()[0] == s[0]);
        let a = s[0] as int;
        let p = prod(s.drop_first().drop_last());
        let l = s.last() as int;
        assert(prod(s.drop_last()) == a * p);
        assert(prod(s) == (a * p) * l);
        assert(prod(s.drop_first()) == p * l);
        assert((a * p) * l == a * (p * l)) by (nonlinear_arith);
    }
}

/// `prod` of a suffix unfolds at its first axis.
pub proof fn lemma_prod_suffix(s: Seq<usize>, i: int)
    requires
        0 <= i < s.len(),
    ensures
        prod(s.subrange(i, s.len() as int)) == (s[i] as int) * prod(
            s.subrange(i + 1, s.len() as int),
        ),
{
    let suf = s.subrange(i, s.len() as int);
    lemma_prod_first(suf);
    assert(suf.drop_first() =~= s.subrange(i + 1, s.len() as int));
}

/// With all axes positive, a prefix of a shape has at most as many elements
/// as the whole shape.
pub proof fn lemma_prod_take_le(s: Seq<usize>, j: int)
    requires
        0 <= j <= s.len(),
        forall|i: int| 0 <= i < s.len() ==> s[i] >= 1,
    ensures
        prod(s.take(j)) <= prod(s),
    decreases s.len() - j,
{
    if j == s.len() {
        assert(s.take(j) =~= s);
    } else {
        assert(s.take(j + 1).drop_last() =~= s.take(j));
        assert(s.take(j + 1).last() == s[j]);
        lemma_prod_nonneg(s.take(j));
        assert(prod(s.take(j)) * (s[j] as int) >= prod(s.take(j))) by (nonlinear_arith)
            requires
                prod(s.take(j)) >= 0,
                s[j] as int >= 1,
        ;
        lemma_prod_take_le(s, j + 1);
    }
}

/// The element count of a concatenation is the product of the counts.
pub proof fn lemma_prod_concat(s1: Seq<usize>, s2: Seq<usize>)
    ensures
        prod(s1 + s2) == prod(s1) * prod(s2),
    decreases s2.len(),
{
    if s2.len() == 0 {
        assert(s1 + s2 =~= s1);
    } else {
        assert((s1 + s2).drop_last() =~= s1 + s2.drop_last());
        assert((s1 + s2).last() == s2.last());
        lemma_prod_concat(s1, s2.drop_last());
        assert(prod(s1) * prod(s2.drop_last()) * (s2.last() as int) == prod(s1) * (prod(
            s2.drop_last(),
        ) * (s2.last() as int))) by (nonlinear_arith);
    }
}

/// An in-bounds coordinate has a flat position inside the buffer.
pub proof fn lemma_flat_range(idx: Seq<usize>, s: Seq<usize>)
    requires
        in_bounds(idx, s),
    ensures
        0 <= flat_index(idx, s) < prod(s),
    decreases s.len(),
{
    if s.len() > 0 {
        assert(in_bounds(idx.drop_last(), s.drop_last()));
        lemma_flat_range(idx.drop_last(), s.drop_last());
        let f = flat_index(idx.drop_last(), s.drop_last());
        let p = prod(s.drop_last());
        let d = s.last() as int;
        let c = idx.last() as int;
        assert(0 <= f * d + c < p * d) by (nonlinear_arith)
            requires
                0 <= f,
                f < p,
                0 <= c,
                c < d,
        ;
    }
}

/// Distinct in-bounds coordinates have distinct flat positions: together
/// with `lemma_flat_range` and `lemma_unrank`, flat indexing visits every
/// buffer position exactly once.
pub proof fn lemma_flat_injective(a: Seq<usize>, b: Seq<usize>, s: Seq<usize>)
    requires
        in_bounds(a, s),
        in_bounds(b, s),
        flat_index(a, s) == flat_index(b, s),
    ensures
        a == b,
    decreases s.len(),
{
    if s.len() == 0 {
        assert(a =~= b);
    } else {
        assert(in_bounds(a.drop_last(), s.drop_last()));
        assert(in_bounds(b.drop_last(), s.drop_last()));
        let d = s.last() as int;
        let fa = flat_index(a.drop_last(), s.drop_last());
        let fb = flat_index(b.drop_last(), s.drop_last());
        let k = flat_index(a, s);
        lemma_fundamental_div_mod_converse(k, d, fa, a.last() as int);
        lemma_fundamental_div_mod_converse(k, d, fb, b.last() as int);
        lemma_flat_injective(a.drop_last(), b.drop_last(), s.drop_last());
        assert(a =~= a.drop_last().push(a.last()));
        assert(b =~= b.drop_last().push(b.last()));
    }
}

/// Unranking a position inside the buffer gives the in-bounds coordinate
/// whose flat position it is: flat indexing is onto the buffer.
pub proof fn lemma_unrank(k: int, s: Seq<usize>)
    requires
        0 <= k < prod(s),
    ensures
        in_bounds(unrank(k, s), s),
        flat_index(unrank(k, s), s) == k,
    decreases s.len(),
{
    if s.len() == 0 {
        assert(unrank(k, s) =~= Seq::<usize>::empty());
    } else {
        let d = s.last() as int;
        let p = prod(s.drop_last());
        lemma_prod_nonneg(s.drop_last());
        assert(p > 0 && d > 0) by (nonlinear_arith)
            requires
                p * d > 0,
                p >= 0,
                d >= 0,
        ;
        lemma_mod_bound(k, d);
        lemma_multiply_divide_lt(k, d, p);
        lemma_div_pos_is_pos(k, d);
        lemma_unrank(k / d, s.drop_last());
        let u = unrank(k / d, s.drop_last());
        let w = u.push((k % d) as usize);
        assert(w.drop_last() =~= u);
        assert(w.last() == (k % d) as usize);
        assert(in_bounds(w, s));
        assert(unrank(k, s) == w);
        assert(flat_index(w, s) == flat_index(u, s.drop_last()) * d + (k % d));
        assert(flat_index(u, s.drop_last()) == k / d);
        lemma_fundamental_div_mod(k, d);
        assert(flat_index(w, s) == k);
    }
}

/// The flat position of an in-bounds coordinate unranks back to it.
pub proof fn lemma_unrank_flat(idx: Seq<usize>, s: Seq<usize>)
    requires
        in_bounds(idx, s),
    ensures
        unrank(flat_index(idx, s), s) == idx,
{
    lemma_flat_range(idx, s);
    lemma_unrank(flat_index(idx, s), s);
    lemma_flat_injective(unrank(flat_index(idx, s), s), idx, s);
}

/// Appending one axis to a coordinate and a weight extends the weighted sum
/// by their product.
pub proof fn lemma_weighted_sum_snoc(idx: Seq<usize>, w: Seq<int>, c: usize, v: int)
    requires
        idx.len() == w.len(),
    ensures
        weighted_sum(idx.push(c), w.push(v)) == weighted_sum(idx, w) + (c as int) * v,
    decreases idx.len(),
{
    assert(idx.push(c)[0] == if idx.len() == 0 { c } else { idx[0] });
    assert(w.push(v)[0] == if w.len() == 0 { v } else { w[0] });
    assert(weighted_sum(idx.push(c), w.push(v)) == (idx.push(c)[0] as int) * w.push(v)[0]
        + weighted_sum(idx.push(c).drop_first(), w.push(v).drop_first()));
    if idx.len() == 0 {
        assert(idx.push(c).drop_first() =~= Seq::<usize>::empty());
        assert(w.push(v).drop_first() =~= Seq::<int>::empty());
        assert(weighted_sum(idx.push(c).drop_first(), w.push(v).drop_first()) == 0);
        assert(weighted_sum(idx, w) == 0);
    } else {
        assert(idx.push(c).drop_first() =~= idx.drop_first().push(c));
        assert(w.push(v).drop_first() =~= w.drop_first().push(v));
        lemma_weighted_sum_snoc(idx.drop_first(), w.drop_first(), c, v);
        assert(weighted_sum(idx.push(c).drop_first(), w.push(v).drop_first())
            == weighted_sum(idx.drop_first(), w.drop_first()) + (c as int) * v);
        assert(weighted_sum(idx, w) == (idx[0] as int) * w[0] + weighted_sum(
            idx.drop_first(),
            w.drop_first(),
        ));
    }
}

/// Scaling every weight scales the weighted sum.
pub proof fn lemma_weighted_sum_scale(idx: Seq<usize>, w: Seq<int>, ws: Seq<int>, m: int)
    requires
        idx.len() == w.len(),
        ws.len() == w.len(),
        forall|i: int| 0 <= i < w.len() ==> ws[i] == w[i] * m,
    ensures
        weighted_sum(idx, ws) == weighted_sum(idx, w) * m,
    decreases idx.len(),
{
    if idx.len() == 0 {
    } else {
        assert(in_scale_tail(w, ws, m)) by {
            assert forall|i: int| 0 <= i < w.drop_first().len() implies ws.drop_first()[i]
                == w.drop_first()[i] * m by {
                assert(ws[i + 1] == w[i + 1] * m);
            }
        }
        lemma_weighted_sum_scale(idx.drop_first(), w.drop_first(), ws.drop_first(), m);
        let c = idx[0] as int;
        let sum = weighted_sum(idx.drop_first(), w.drop_first());
        assert(c * (w[0] * m) + sum * m == (c * w[0] + sum) * m) by (nonlinear_arith);
    }
}

/// Helper predicate for `lemma_weighted_sum_scale`: the scaling relation on
/// the tails of the two weight sequences.
pub open spec fn in_scale_tail(w: Seq<int>, ws: Seq<int>, m: int) -> bool {
    forall|i: int| 0 <= i < w.drop_first().len() ==> ws.drop_first()[i] == w.drop_first()[i] * m
}

/// The Horner-form flat index equals the stride-weighted sum of the
/// coordinate: indexing a buffer at `sum(idx[i] * stride[i])` is row-major
/// flat indexing.
pub proof fn lemma_flat_index_is_stride_sum(idx: Seq<usize>, s: Seq<usize>)
    requires
        idx.len() == s.len(),
    ensures
        flat_index(idx, s) == weighted_sum(idx, stride_seq(s)),
    decreases s.len(),
{
    if s.len() == 0 {
    } else {
        let sd = s.drop_last();
        let d = s.last() as int;
        lemma_flat_index_is_stride_sum(idx.drop_last(), sd);
        // strides of s restricted to the leading axes are the strides of sd
        // scaled by the last axis size
        let w = stride_seq(sd);
        let ws = stride_seq(s).drop_last();
        assert forall|i: int| 0 <= i < w.len() implies ws[i] == w[i] * d by {
            assert(ws[i] == prod(s.subrange(i + 1, s.len() as int)));
            let suf = s.subrange(i + 1, s.len() as int);
            assert(suf.drop_last() =~= sd.subrange(i + 1, sd.len() as int));
            assert(suf.last() == s.last());
        }
        lemma_weighted_sum_scale(idx.drop_last(), w, ws, d);
        assert(stride_seq(s) =~= ws.push(1)) by {
            assert(stride_seq(s)[s.len() - 1] == prod(s.subrange(s.len() as int, s.len() as int)));
            assert(s.subrange(s.len() as int, s.len() as int) =~= Seq::<usize>::empty());
        }
        assert(idx =~= idx.drop_last().push(idx.last()));
        lemma_weighted_sum_snoc(idx.drop_last(), ws, idx.last(), 1);
    }
}


/// Stride-indexing law: over the index space of shape `s`, the map from a
/// coordinate to its stride-weighted buffer offset `sum(idx[i] * stride[i])`
/// stays inside the buffer, sends distinct coordinates to distinct
/// offsets, and reaches every offset below `prod(s)` — so walking all
/// coordinates visits each buffer element exactly once.
pub proof fn lemma_stride_index_bijective(a: Seq<usize>, b: Seq<usize>, k: int, s: Seq<usize>)
    requires
        in_bounds(a, s),
        in_bounds(b, s),
        0 <= k < prod(s),
    ensures
        0 <= weighted_sum(a, stride_seq(s)) < prod(s),
        weighted_sum(a, stride_seq(s)) == weighted_sum(b, stride_seq(s)) ==> a == b,
        in_bounds(unrank(k, s), s),
        weighted_sum(unrank(k, s), stride_seq(s)) == k,
{
    lemma_flat_index_is_stride_sum(a, s);
    lemma_flat_index_is_stride_sum(b, s);
    lemma_flat_range(a, s);
    if weighted_sum(a, stride_seq(s)) == weighted_sum(b, stride_seq(s)) {
        lemma_flat_injective(a, b, s);
    }
    lemma_unrank(k, s);
    lemma_flat_index_is_stride_sum(unrank(k, s), s);
}

/// Broadcast merging of shapes is symmetric: compatible shapes merge to the
/// same shape in either order.
pub proof fn lemma_broadcast_symmetric(a: Seq<usize>, b: Seq<usize>)
    requires
        dims_compatible(a, b),
    ensures
        dims_compatible(b, a),
        bc_shape(a, b) == bc_shape(b, a),
{
    assert(bc_shape(a, b) =~= bc_shape(b, a));
}

/// A compatible shape expands to the merged shape.
pub proof fn lemma_compat_expandable(a: Seq<usize>, b: Seq<usize>)
    requires
        dims_compatible(a, b),
    ensures
        expandable_to(a, bc_shape(a, b)),
        expandable_to(b, bc_shape(a, b)),
{
}

/// The source coordinate of an in-bounds target coordinate is in bounds for
/// the source shape.
pub proof fn lemma_bsrc_in_bounds(idx: Seq<usize>, s: Seq<usize>, t: Seq<usize>)
    requires
        in_bounds(idx, t),
        expandable_to(s, t),
    ensures
        in_bounds(bsrc(idx, s), s),
{
    assert forall|i: int| 0 <= i < s.len() implies bsrc(idx, s)[i] < s[i] by {
        if s[i] != 1 {
            assert(s[i] == t[i + t.len() - s.len()]);
        }
    }
}

/// Row-major strides from a shape: `r[i]` is the number of elements covered
/// by one step along axis `i`, the product of all later axis sizes.
pub fn compute_stride(shape: &Vec<usize>) -> (r: Vec<usize>)
    requires
        strides_fit(shape@),
    ensures
        r@.len() == shape@.len(),
        forall|i: int| 0 <= i < r@.len() ==> r@[i] as int == prod(
            #[trigger] shape@.subrange(i + 1, shape@.len() as int),
        ),
{
    let n = shape.len();
    let mut r: Vec<usize> = Vec::new();
    let mut z: usize = 0;
    while z < n
        invariant
            r@.len() == z,
            0 <= z <= n,
        decreases n - z,
    {
        r.push(0);
        z += 1;
    }
    let mut acc: usize = 1;
    let mut i: usize = n;
    proof {
        assert(shape@.subrange(n as int, n as int) =~= Seq::<usize>::empty());
    }
    while i > 0
        invariant
            n == shape@.len(),
            r@.len() == n,
            0 <= i <= n,
            strides_fit(shape@),
            acc as int == prod(shape@.subrange(i as int, n as int)),
            forall|k: int| i <= k < n ==> r@[k] as int == prod(
                #[trigger] shape@.subrange(k + 1, n as int),
            ),
        decreases i,
    {
        let im1 = i - 1;
        proof {
            lemma_prod_suffix(shape@, im1 as int);
            lemma_prod_nonneg(shape@.subrange(im1 as int, n as int));
            lemma_prod_nonneg(shape@.subrange(im1 as int + 1, n as int));
        }
        r.set(im1, acc);
        acc = shape[im1] * acc;
        i = im1;
    }
    r
}

/// The number of elements of a shape, or `None` when it exceeds the machine
/// word (only possible with every axis positive).
pub fn checked_prod(s: &Vec<usize>) -> (r: Option<usize>)
    ensures
        match r {
            Some(v) => v as int == prod(s@),
            None => prod(s@) > usize::MAX as int,
        },
{
    let n = s.len();
    let mut i: usize = 0;
    while i < n
        invariant
            0 <= i <= n,
            n == s@.len(),
            forall|k: int| 0 <= k < i ==> s@[k] != 0,
        decreases n - i,
    {
        if s[i] == 0 {
            proof {
                lemma_prod_zero_dim(s@, i as int);
            }
            return Some(0);
        }
        i += 1;
    }
    let mut acc: usize = 1;
    let mut j: usize = 0;
    proof {
        assert(s@.take(0) =~= Seq::<usize>::empty());
    }
    while j < n
        invariant
            0 <= j <= n,
            n == s@.len(),
            forall|k: int| 0 <= k < n ==> s@[k] >= 1,
            acc as int == prod(s@.take(j as int)),
            acc >= 1,
        decreases n - j,
    {
        let d = s[j];
        proof {
            assert(s@.take(j as int + 1).drop_last() =~= s@.take(j as int));
            assert(s@.take(j as int + 1).last() == s@[j as int]);
        }
        if acc > usize::MAX / d {
            proof {
                let m = usize::MAX as int;
                let dd = d as int;
                lemma_fundamental_div_mod(m, dd);
                lemma_mod_bound(m, dd);
                lemma_div_pos_is_pos(m, dd);
                assert((acc as int) * dd >= (m / dd + 1) * dd) by (nonlinear_arith)
                    requires
                        acc as int >= m / dd + 1,
                        dd >= 1,
                ;
                assert((m / dd + 1) * dd == dd * (m / dd) + dd) by (nonlinear_arith);
                assert((acc as int) * dd > m);
                lemma_prod_take_le(s@, j as int + 1);
            }
            return None;
        }
        proof {
            let m = usize::MAX as int;
            let dd = d as int;
            lemma_fundamental_div_mod(m, dd);
            lemma_mod_bound(m, dd);
            assert((acc as int) * dd <= (m / dd) * dd) by (nonlinear_arith)
                requires
                    acc as int <= m / dd,
                    dd >= 1,
            ;
            assert((m / dd) * dd == dd * (m / dd)) by (nonlinear_arith);
            assert((acc as int) * dd <= m);
        }
        acc = acc * d;
        proof {
            assert forall|q: int| 0 <= q < s@.take(j as int + 1).len() implies #[trigger] s@.take(
                j as int + 1,
            )[q] >= 1 by {
                assert(s@[q] >= 1);
            }
            lemma_prod_all_pos(s@.take(j as int + 1));
        }
        j += 1;
    }
    proof {
        assert(s@.take(n as int) =~= s@);
    }
    Some(acc)
}

/// Merge two shapes under the element-wise broadcasting rule.  Fails with
/// `ShapeError` exactly when the ranks differ or some axis has two distinct
/// sizes both different from 1.
pub fn broadcast(a: &Vec<usize>, b: &Vec<usize>) -> (r: Result<Vec<usize>, AdError>)
    ensures
        match r {
            Ok(v) => dims_compatible(a@, b@) && v@ == bc_shape(a@, b@),
            Err(e) => e == AdError::ShapeError && !dims_compatible(a@, b@),
        },
{
    if a.len() != b.len() {
        return Err(AdError::ShapeError);
    }
    let n = a.len();
    let mut res: Vec<usize> = Vec::new();
    let mut i: usize = 0;
    while i < n
        invariant
            n == a@.len(),
            n == b@.len(),
            0 <= i <= n,
            res@.len() == i,
            forall|k: int| 0 <= k < i ==> a@[k] == b@[k] || a@[k] == 1 || b@[k] == 1,
            forall|k: int| 0 <= k < i ==> res@[k] == (if a@[k] != 1 {
                a@[k]
            } else {
                b@[k]
            }),
        decreases n - i,
    {
        let x = a[i];
        let y = b[i];
        if x == y || x == 1 || y == 1 {
            res.push(if x != 1 { x } else { y });
        } else {
            proof {
                assert(!(a@[i as int] == b@[i as int] || a@[i as int] == 1 || b@[i as int] == 1));
            }
            return Err(AdError::ShapeError);
        }
        i += 1;
    }
    proof {
        assert(res@ =~= bc_shape(a@, b@));
    }
    Ok(res)
}

/// The coordinate tuple of the `k`-th element of `shape` in row-major
/// order.
pub fn unrank_exec(k: usize, shape: &Vec<usize>) -> (r: Vec<usize>)
    requires
        (k as int) < prod(shape@),
    ensures
        r@ == unrank(k as int, shape@),
        in_bounds(r@, shape@),
        flat_index(r@, shape@) == k as int,
{
    let n = shape.len();
    proof {
        lemma_prod_positive_dims(shape@);
    }
    let mut r: Vec<usize> = Vec::new();
    let mut z: usize = 0;
    while z < n
        invariant
            r@.len() == z,
            0 <= z <= n,
        decreases n - z,
    {
        r.push(0);
        z += 1;
    }
    let mut kk: usize = k;
    let mut j: usize = n;
    proof {
        assert(shape@.take(n as int) =~= shape@);
        assert(r@.skip(n as int) =~= Seq::<usize>::empty());
        assert(unrank(kk as int, shape@.take(j as int)) + r@.skip(j as int) =~= unrank(
            k as int,
            shape@,
        ));
    }
    while j > 0
        invariant
            n == shape@.len(),
            r@.len() == n,
            0 <= j <= n,
            forall|i: int| 0 <= i < shape@.len() ==> shape@[i] >= 1,
            0 <= (kk as int) < prod(shape@.take(j as int)),
            unrank(k as int, shape@) == unrank(kk as int, shape@.take(j as int)) + r@.skip(
                j as int,
            ),
        decreases j,
    {
        let jm1 = j - 1;
        let d = shape[jm1];
        let ghost kk0 = kk as int;
        let ghost r0 = r@;
        let c = kk % d;
        kk = kk / d;
        r.set(jm1, c);
        j = jm1;
        proof {
            let s = shape@;
            let dd = d as int;
            let tj = s.take(jm1 as int + 1);
            assert(tj.drop_last() =~= s.take(jm1 as int));
            assert(tj.last() == s[jm1 as int]);
            lemma_mod_bound(kk0, dd);
            lemma_div_pos_is_pos(kk0, dd);
            assert(prod(tj) == prod(s.take(jm1 as int)) * dd);
            lemma_prod_nonneg(s.take(jm1 as int));
            lemma_multiply_divide_lt(kk0, dd, prod(s.take(jm1 as int)));
            assert(unrank(kk0, tj) == unrank(kk0 / dd, s.take(jm1 as int)).push(
                (kk0 % dd) as usize,
            ));
            assert(r@.skip(jm1 as int) =~= seq![c] + r0.skip(jm1 as int + 1));
            assert(unrank(kk0 / dd, s.take(jm1 as int)).push(c) + r0.skip(jm1 as int + 1) =~=
                unrank(kk0 / dd, s.take(jm1 as int)) + (seq![c] + r0.skip(jm1 as int + 1)));
        }
    }
    proof {
        assert(shape@.take(0) =~= Seq::<usize>::empty());
        assert(r@.skip(0) =~= r@);
        assert(unrank(k as int, shape@) == r@);
        lemma_unrank(k as int, shape@);
    }
    r
}

/// The flat source offset that target coordinate `idx` reads under
/// broadcasting from `shape` (leading target axes dropped, size-1 axes
/// pinned to 0).
pub fn src_offset(idx: &Vec<usize>, shape: &Vec<usize>) -> (o: usize)
    requires
        shape@.len() <= idx@.len(),
        prod(shape@) <= usize::MAX as int,
        in_bounds(bsrc(idx@, shape@), shape@),
    ensures
        o as int == flat_index(bsrc(idx@, shape@), shape@),
        (o as int) < prod(shape@),
{
    let n = shape.len();
    let m = idx.len();
    let off = m - n;
    let ghost src = bsrc(idx@, shape@);
    proof {
        assert forall|i: int| 0 <= i < n implies shape@[i] >= 1 by {
            assert(src[i] < shape@[i]);
        }
        assert(src.take(0) =~= Seq::<usize>::empty());
        assert(shape@.take(0) =~= Seq::<usize>::empty());
    }
    let mut acc: usize = 0;
    let mut j: usize = 0;
    while j < n
        invariant
            n == shape@.len(),
            m == idx@.len(),
            n <= m,
            off == m - n,
            src == bsrc(idx@, shape@),
            in_bounds(src, shape@),
            prod(shape@) <= usize::MAX as int,
            forall|i: int| 0 <= i < n ==> shape@[i] >= 1,
            0 <= j <= n,
            acc as int == flat_index(src.take(j as int), shape@.take(j as int)),
            (acc as int) < prod(shape@.take(j as int)),
        decreases n - j,
    {
        let c = if shape[j] == 1 {
            0
        } else {
            idx[off + j]
        };
        proof {
            let s = shape@;
            assert(src[j as int] == c);
            assert(src.take(j as int + 1).drop_last() =~= src.take(j as int));
            assert(src.take(j as int + 1).last() == c);
            assert(s.take(j as int + 1).drop_last() =~= s.take(j as int));
            assert(s.take(j as int + 1).last() == s[j as int]);
            assert(in_bounds(src.take(j as int + 1), s.take(j as int + 1)));
            lemma_flat_range(src.take(j as int + 1), s.take(j as int + 1));
            lemma_prod_take_le(s, j as int + 1);
            assert(flat_index(src.take(j as int + 1), s.take(j as int + 1)) == (acc as int) * (
            s[j as int] as int) + (c as int));
        }
        acc = acc * shape[j] + c;
        j += 1;
    }
    proof {
        assert(src.take(n as int) =~= src);
        assert(shape@.take(n as int) =~= shape@);
    }
    acc
}

/// Produces every coordinate tuple of an N-dimensional index space in
/// row-major order (the last axis varies fastest), then `None`.  A rank-0
/// shape yields exactly the empty tuple; a shape with a zero-sized axis
/// yields no tuples.
pub struct MultiIndexIterator {
    shape: Vec<usize>,
    pos: usize,
    total: usize,
}

impl MultiIndexIterator {
    /// The index space being enumerated.
    pub closed spec fn shape_view(&self) -> Seq<usize> {
        self.shape@
    }

    /// How many tuples have been yielded so far.
    pub closed spec fn pos_view(&self) -> int {
        self.pos as int
    }

    /// The cached total element count agrees with the shape.
    pub closed spec fn wf(&self) -> bool {
        self.total as int == prod(self.shape@) && 0 <= self.pos <= self.total
    }

    pub fn new(shape: Vec<usize>) -> (it: Self)
        requires
            prod(shape@) <= usize::MAX as int,
        ensures
            it.wf(),
            it.shape_view() == shape@,
            it.pos_view() == 0,
    {
        let total = match checked_prod(&shape) {
            Some(t) => t,
            None => {
                proof {
                    assert(false);
                }
                0
            },
        };
        MultiIndexIterator { shape, pos: 0, total }
    }

    /// The next coordinate tuple in row-major order, or `None` once all
    /// `prod(shape)` tuples have been yielded.
    pub fn next(&mut self) -> (r: Option<Vec<usize>>)
        requires
            old(self).wf(),
        ensures
            final(self).wf(),
            final(self).shape_view() == old(self).shape_view(),
            match r {
                Some(v) => old(self).pos_view() < prod(old(self).shape_view()) && v@ == unrank(
                    old(self).pos_view(),
                    old(self).shape_view(),
                ) && in_bounds(v@, final(self).shape_view()) && flat_index(v@, final(self).shape_view()) == old(
                    self,
                ).pos_view() && final(self).pos_view() == old(self).pos_view() + 1,
                None => old(self).pos_view() == prod(old(self).shape_view()) && final(self).pos_view()
                    == old(self).pos_view(),
            },
    {
        if self.pos < self.total {
            let idx = unrank_exec(self.pos, &self.shape);
            self.pos = self.pos + 1;
            Some(idx)
        } else {
            None
        }
    }
}

} // verus!
