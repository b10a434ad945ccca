use autograd::ndarray::{broadcast_to, reduce_to, NDArray};
use autograd::shape::{broadcast, compute_stride, MultiIndexIterator};
use autograd::AdError;

#[test]
fn stride_of_rank_three_shape() {
    let s = compute_stride(&vec![2, 3, 4]);
    assert_eq!(*s, vec![12, 4, 1]);
}

#[test]
fn stride_of_scalar_shape_is_empty() {
    let s = compute_stride(&vec![]);
    assert!(s.is_empty());
}

#[test]
fn iterator_covers_every_offset_once() {
    // Walking the [2, 3] index space and flattening each coordinate with
    // the strides visits each buffer offset exactly once, in order.
    let shape = vec![2usize, 3usize];
    let strides = compute_stride(&shape);
    let mut it = MultiIndexIterator::new(shape);
    let mut offsets: Vec<usize> = Vec::new();
    while let Some(idx) = it.next() {
        let mut o = 0;
        for a in 0..idx.len() {
            o += idx[a] * strides[a];
        }
        offsets.push(o);
    }
    assert_eq!(offsets, vec![0, 1, 2, 3, 4, 5]);
}

#[test]
fn iterator_row_major_order() {
    let mut it = MultiIndexIterator::new(vec![2, 2]);
    assert_eq!(it.next(), Some(vec![0, 0]));
    assert_eq!(it.next(), Some(vec![0, 1]));
    assert_eq!(it.next(), Some(vec![1, 0]));
    assert_eq!(it.next(), Some(vec![1, 1]));
    assert_eq!(it.next(), None);
}

#[test]
fn iterator_scalar_shape_yields_empty_tuple() {
    let mut it = MultiIndexIterator::new(vec![]);
    assert_eq!(it.next(), Some(vec![]));
    assert_eq!(it.next(), None);
}

#[test]
fn iterator_zero_axis_yields_nothing() {
    let mut it = MultiIndexIterator::new(vec![0]);
    assert_eq!(it.next(), None);
}

#[test]
fn broadcast_of_three_one_and_three_four() {
    assert_eq!(broadcast(&vec![3, 1], &vec![3, 4]), Ok(vec![3, 4]));
}

#[test]
fn broadcast_incompatible_fails() {
    assert_eq!(broadcast(&vec![3, 4], &vec![2, 4]), Err(AdError::ShapeError));
}

#[test]
fn broadcast_rank_mismatch_fails() {
    assert_eq!(broadcast(&vec![3, 4], &vec![4]), Err(AdError::ShapeError));
}

#[test]
fn broadcast_is_symmetric() {
    let ab = broadcast(&vec![1, 5], &vec![2, 1]);
    let ba = broadcast(&vec![2, 1], &vec![1, 5]);
    assert_eq!(ab, Ok(vec![2, 5]));
    assert_eq!(ab, ba);
}

#[test]
fn new_rejects_wrong_buffer_length() {
    assert!(matches!(NDArray::new(vec![1, 2, 3], vec![2, 2]), Err(AdError::ShapeError)));
}

#[test]
fn new_accepts_scalar() {
    let a = NDArray::new(vec![5], vec![]).unwrap();
    assert_eq!(*a.buf(), vec![5]);
    assert!(a.shape().is_empty());
}

#[test]
fn ones_fills_with_one() {
    let a = NDArray::ones(vec![2, 3]);
    assert_eq!(*a.buf(), vec![1; 6]);
    assert_eq!(*a.shape(), vec![2, 3]);
}

#[test]
fn ones_like_copies_shape() {
    let a = NDArray::new(vec![7, 8], vec![2, 1]).unwrap();
    let o = NDArray::ones_like(&a);
    assert_eq!(*o.shape(), vec![2, 1]);
    assert_eq!(*o.buf(), vec![1, 1]);
}

#[test]
fn add_same_shape_columns() {
    // Adding a [3,1] array of [1,2,3] to a [3,1] array of [4,5,6] yields
    // [5,7,9] with shape [3,1].
    let a = NDArray::new(vec![1, 2, 3], vec![3, 1]).unwrap();
    let b = NDArray::new(vec![4, 5, 6], vec![3, 1]).unwrap();
    let c = a.add(&b).unwrap();
    assert_eq!(*c.buf(), vec![5, 7, 9]);
    assert_eq!(*c.shape(), vec![3, 1]);
}

#[test]
fn add_broadcasts_column_against_matrix() {
    let a = NDArray::new(vec![10, 20, 30], vec![3, 1]).unwrap();
    let b = NDArray::new(vec![1, 2, 3, 4, 5, 6], vec![3, 2]).unwrap();
    let c = a.add(&b).unwrap();
    assert_eq!(*c.shape(), vec![3, 2]);
    assert_eq!(*c.buf(), vec![11, 12, 23, 24, 35, 36]);
}

#[test]
fn add_scalars() {
    let a = NDArray::new(vec![5], vec![]).unwrap();
    let b = NDArray::new(vec![7], vec![]).unwrap();
    let c = a.add(&b).unwrap();
    assert_eq!(*c.buf(), vec![12]);
}

#[test]
fn add_incompatible_shapes_fails() {
    let a = NDArray::ones(vec![2]);
    let b = NDArray::ones(vec![3]);
    assert!(matches!(a.add(&b), Err(AdError::ShapeError)));
}

#[test]
fn broadcast_to_repeats_rows() {
    let out = broadcast_to(&vec![1, 2, 3], &vec![1, 3], &vec![2, 3]).unwrap();
    assert_eq!(out, vec![1, 2, 3, 1, 2, 3]);
}

#[test]
fn broadcast_to_pads_leading_axes() {
    let out = broadcast_to(&vec![4, 5], &vec![2], &vec![3, 2]).unwrap();
    assert_eq!(out, vec![4, 5, 4, 5, 4, 5]);
}

#[test]
fn broadcast_to_lower_rank_target_fails() {
    assert_eq!(broadcast_to(&vec![1, 2], &vec![1, 2], &vec![2]), Err(AdError::ShapeError));
}

#[test]
fn broadcast_to_mismatched_axis_fails() {
    assert_eq!(broadcast_to(&vec![1, 2], &vec![2], &vec![3]), Err(AdError::ShapeError));
}

#[test]
fn reduce_to_sums_broadcast_rows() {
    // A gradient over [2, 3] reduced to [1, 3] sums the two rows.
    let out = reduce_to(&vec![1, 2, 3, 4, 5, 6], &vec![2, 3], &vec![1, 3]);
    assert_eq!(out, vec![5, 7, 9]);
}

#[test]
fn reduce_to_same_shape_is_identity() {
    let out = reduce_to(&vec![1, 2, 3, 4], &vec![2, 2], &vec![2, 2]);
    assert_eq!(out, vec![1, 2, 3, 4]);
}

#[test]
fn matmul_of_ones() {
    // ones([2,3]) x ones([3,4]) is a [2,4] array whose every element is 3.
    let a = NDArray::ones(vec![2, 3]);
    let b = NDArray::ones(vec![3, 4]);
    let c = a.matmul(&b).unwrap();
    assert_eq!(*c.shape(), vec![2, 4]);
    assert_eq!(*c.buf(), vec![3; 8]);
}

#[test]
fn matmul_exact_values() {
    // [[1,2],[3,4]] x [[5,6],[7,8]] == [[19,22],[43,50]]
    let a = NDArray::new(vec![1, 2, 3, 4], vec![2, 2]).unwrap();
    let b = NDArray::new(vec![5, 6, 7, 8], vec![2, 2]).unwrap();
    let c = a.matmul(&b).unwrap();
    assert_eq!(*c.buf(), vec![19, 22, 43, 50]);
}

#[test]
fn matmul_batched_slices_are_independent() {
    // Batch 0 of `a` holds ones, batch 1 holds twos; each [2,4] output
    // batch is that slice's own product with ones([3,4]).
    let mut abuf = vec![1; 6];
    abuf.extend_from_slice(&[2; 6]);
    let a = NDArray::new(abuf, vec![2, 2, 3]).unwrap();
    let b = NDArray::new(vec![1; 24], vec![2, 3, 4]).unwrap();
    let c = a.matmul(&b).unwrap();
    assert_eq!(*c.shape(), vec![2, 2, 4]);
    let mut expected = vec![3; 8];
    expected.extend_from_slice(&[6; 8]);
    assert_eq!(*c.buf(), expected);
}

#[test]
fn matmul_broadcasts_batch_axes() {
    // A batch axis of size 1 on the left is repeated against size 2 on
    // the right.
    let a = NDArray::new(vec![1, 2, 3, 4], vec![1, 2, 2]).unwrap();
    let b = NDArray::new(vec![1, 0, 0, 1, 2, 0, 0, 2], vec![2, 2, 2]).unwrap();
    let c = a.matmul(&b).unwrap();
    assert_eq!(*c.shape(), vec![2, 2, 2]);
    assert_eq!(*c.buf(), vec![1, 2, 3, 4, 2, 4, 6, 8]);
}

#[test]
fn matmul_rank_below_two_fails() {
    let a = NDArray::ones(vec![3]);
    let b = NDArray::ones(vec![3, 2]);
    assert!(matches!(a.matmul(&b), Err(AdError::DimensionError)));
}

#[test]
fn matmul_inner_dimension_mismatch_fails() {
    let a = NDArray::ones(vec![2, 3]);
    let b = NDArray::ones(vec![4, 2]);
    assert!(matches!(a.matmul(&b), Err(AdError::DimensionError)));
}

#[test]
fn matmul_incompatible_batch_axes_fail() {
    let a = NDArray::ones(vec![2, 2, 3]);
    let b = NDArray::ones(vec![3, 3, 4]);
    assert!(matches!(a.matmul(&b), Err(AdError::ShapeError)));
}
