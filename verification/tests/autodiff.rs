use autograd::ndarray::NDArray;
use autograd::tensor::{Operation, Tape, Tensor};
use autograd::AdError;

fn leaf(tape: &mut Tape, buf: Vec<i32>, shape: Vec<usize>) -> usize {
    tape.push(Tensor::new(NDArray::new(buf, shape).unwrap()))
}

fn grad_buf(tape: &Tape, id: usize) -> Vec<i32> {
    tape.grad(id).as_ref().unwrap().buf().clone()
}

fn grad_shape(tape: &Tape, id: usize) -> Vec<usize> {
    tape.grad(id).as_ref().unwrap().shape().clone()
}

#[test]
fn forward_add_produces_sum_node() {
    let mut tape = Tape::new();
    let a = leaf(&mut tape, vec![1, 2, 3], vec![3, 1]);
    let b = leaf(&mut tape, vec![4, 5, 6], vec![3, 1]);
    let c = Tensor::add(&mut tape, a, b).unwrap();
    assert_eq!(*tape.data(c).buf(), vec![5, 7, 9]);
    assert_eq!(*tape.data(c).shape(), vec![3, 1]);
}

#[test]
fn gradient_round_trip_without_broadcasting() {
    // For c = a.add(b) with a, b both ones([3,4]), after backward both
    // gradients are ones([3,4]).
    let mut tape = Tape::new();
    let a = tape.push(Tensor::new(NDArray::ones(vec![3, 4])));
    let b = tape.push(Tensor::new(NDArray::ones(vec![3, 4])));
    let c = Tensor::add(&mut tape, a, b).unwrap();
    Tensor::backward(&mut tape, c);
    assert_eq!(grad_buf(&tape, a), vec![1; 12]);
    assert_eq!(grad_shape(&tape, a), vec![3, 4]);
    assert_eq!(grad_buf(&tape, b), vec![1; 12]);
    assert_eq!(grad_shape(&tape, b), vec![3, 4]);
}

#[test]
fn diamond_accumulation_sums_both_paths() {
    // For b = a.add(a), backward must leave 2 * ones(a.shape) in a's
    // gradient slot, not ones(a.shape).
    let mut tape = Tape::new();
    let a = leaf(&mut tape, vec![10, 20, 30], vec![3]);
    let b = Tensor::add(&mut tape, a, a).unwrap();
    Tensor::backward(&mut tape, b);
    assert_eq!(grad_buf(&tape, a), vec![2, 2, 2]);
    assert_eq!(grad_buf(&tape, b), vec![1, 1, 1]);
}

#[test]
fn broadcast_gradient_is_reduced_to_input_shape() {
    // For c = a.add(b) with a of shape [1,4] and b of shape [3,4], a's
    // gradient has shape [1,4] and each element is the sum over the three
    // broadcast rows of the all-ones output gradient.
    let mut tape = Tape::new();
    let a = leaf(&mut tape, vec![1, 2, 3, 4], vec![1, 4]);
    let b = tape.push(Tensor::new(NDArray::ones(vec![3, 4])));
    let c = Tensor::add(&mut tape, a, b).unwrap();
    Tensor::backward(&mut tape, c);
    assert_eq!(grad_shape(&tape, a), vec![1, 4]);
    assert_eq!(grad_buf(&tape, a), vec![3, 3, 3, 3]);
    assert_eq!(grad_shape(&tape, b), vec![3, 4]);
    assert_eq!(grad_buf(&tape, b), vec![1; 12]);
}

#[test]
fn chained_adds_propagate_through_interior_nodes() {
    let mut tape = Tape::new();
    let a = leaf(&mut tape, vec![1, 2], vec![2]);
    let b = leaf(&mut tape, vec![3, 4], vec![2]);
    let c = Tensor::add(&mut tape, a, b).unwrap();
    let d = Tensor::add(&mut tape, c, a).unwrap();
    Tensor::backward(&mut tape, d);
    // a receives one contribution through c and one directly from d
    assert_eq!(grad_buf(&tape, a), vec![2, 2]);
    assert_eq!(grad_buf(&tape, b), vec![1, 1]);
    assert_eq!(grad_buf(&tape, c), vec![1, 1]);
}

#[test]
fn backward_leaves_unreachable_nodes_untouched() {
    let mut tape = Tape::new();
    let a = leaf(&mut tape, vec![1], vec![]);
    let unrelated = leaf(&mut tape, vec![9], vec![]);
    let b = Tensor::add(&mut tape, a, a).unwrap();
    Tensor::backward(&mut tape, b);
    assert!(tape.grad(unrelated).is_none());
    assert_eq!(grad_buf(&tape, a), vec![2]);
}

#[test]
fn add_with_incompatible_shapes_fails() {
    let mut tape = Tape::new();
    let a = leaf(&mut tape, vec![1, 2], vec![2]);
    let b = leaf(&mut tape, vec![1, 2, 3], vec![3]);
    assert!(matches!(Tensor::add(&mut tape, a, b), Err(AdError::ShapeError)));
    // a failed application does not grow the tape
    assert_eq!(tape.len(), 2);
}

#[test]
fn apply_with_wrong_arity_fails() {
    let mut tape = Tape::new();
    let a = leaf(&mut tape, vec![1, 2], vec![2]);
    let op = Operation::Add;
    assert!(matches!(op.apply(&mut tape, &vec![a]), Err(AdError::ArityError)));
}

#[test]
fn operation_backward_reduces_to_input_shapes() {
    // The Add backward rule returns one gradient per saved input, reduced
    // from the broadcast output shape down to each input's own shape.
    let mut tape = Tape::new();
    let a = leaf(&mut tape, vec![1, 2, 3, 4], vec![1, 4]);
    let b = tape.push(Tensor::new(NDArray::ones(vec![3, 4])));
    let op = Operation::Add;
    let mut ctx = autograd::tensor::Context::new();
    let out = op.forward(&mut ctx, &tape, &vec![a, b]).unwrap();
    let seed = NDArray::ones_like(&out);
    let grads = op.backward(&ctx, &tape, &seed);
    assert_eq!(grads.len(), 2);
    assert_eq!(*grads[0].shape(), vec![1, 4]);
    assert_eq!(*grads[0].buf(), vec![3, 3, 3, 3]);
    assert_eq!(*grads[1].shape(), vec![3, 4]);
    assert_eq!(*grads[1].buf(), vec![1; 12]);
}

#[test]
fn forward_with_wrong_arity_fails() {
    let mut tape = Tape::new();
    let a = leaf(&mut tape, vec![1], vec![]);
    let op = Operation::Add;
    let mut ctx = autograd::tensor::Context::new();
    assert!(matches!(op.forward(&mut ctx, &tape, &vec![a, a, a]), Err(AdError::ArityError)));
}

#[test]
fn leaf_tensor_has_no_gradient_before_backward() {
    let mut tape = Tape::new();
    let a = leaf(&mut tape, vec![1, 2], vec![2]);
    assert!(tape.grad(a).is_none());
}

#[test]
fn backward_on_a_leaf_seeds_only_itself() {
    let mut tape = Tape::new();
    let a = leaf(&mut tape, vec![4, 5], vec![2]);
    Tensor::backward(&mut tape, a);
    assert_eq!(grad_buf(&tape, a), vec![1, 1]);
}
