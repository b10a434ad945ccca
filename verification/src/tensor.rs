//! The computation graph: a tape (arena) of tensors addressed by index,
//! the closed set of differentiable operations, and the backward traversal
//! that propagates gradients in reverse topological order, summing every
//! contribution a node receives before propagating it further.

use vstd::prelude::*;

use crate::ndarray::add_fits;
use crate::ndarray::add_output;
use crate::ndarray::add_same;
use crate::ndarray::copy_i32s;
use crate::ndarray::copy_usizes;
use crate::ndarray::fits_i32;
use crate::ndarray::ints;
use crate::ndarray::lemma_reduce_identity;
use crate::ndarray::reduce_fits;
use crate::ndarray::reduce_grad;
use crate::ndarray::reduce_to;
use crate::ndarray::NDArray;
use crate::ndarray::NDView;
use crate::shape::bc_shape;
use crate::shape::dims_compatible;
use crate::shape::lemma_compat_expandable;
use crate::shape::lemma_prod_nonneg;
use crate::shape::prod;
use crate::AdError;

verus! {

/// The record of which graph nodes an operation invocation consumed, in
/// input order: the backward pass routes gradients through it.
pub struct Context {
    saved_tensors: Vec<usize>,
}

impl View for Context {
    type V = Seq<usize>;

    closed spec fn view(&self) -> Seq<usize> {
        self.saved_tensors@
    }
}

impl Context {
    /// A fresh, empty context.
    pub fn new() -> (c: Context)
        ensures
            c@ == Seq::<usize>::empty(),
    {
        Context { saved_tensors: Vec::new() }
    }
}

/// The closed set of differentiable primitives.
#[derive(Clone, Copy, PartialEq, Eq, Structural, Debug)]
pub enum Operation {
    /// Element-wise broadcasting addition of two tensors.
    Add,
}

/// The abstract value of a graph node: its forward data and, for produced
/// nodes, the operation and the input node ids that produced it.
pub ghost struct TensorView {
    pub data: NDView,
    pub ctx: Option<(Operation, Seq<usize>)>,
}

/// A graph node: its forward value (immutable once constructed) and its
/// provenance (absent for leaf tensors).
pub struct Tensor {
    data: NDArray,
    ctx: Option<(Operation, Context)>,
}

impl View for Tensor {
    type V = TensorView;

    closed spec fn view(&self) -> TensorView {
        TensorView {
            data: self.data@,
            ctx: match self.ctx {
                None => None,
                Some((op, c)) => Some((op, c@)),
            },
        }
    }
}

/// The abstract value of a tape: the node sequence and one gradient slot
/// per node.
pub ghost struct TapeView {
    pub nodes: Seq<TensorView>,
    pub grads: Seq<Option<NDView>>,
}

/// The tape: an arena of graph nodes addressed by index.  A produced
/// node's context refers to earlier indices, so the graph is a DAG and
/// descending index order is a reverse topological order.
pub struct Tape {
    nodes: Vec<Tensor>,
    grads: Vec<Option<NDArray>>,
}

impl View for Tape {
    type V = TapeView;

    closed spec fn view(&self) -> TapeView {
        TapeView {
            nodes: self.nodes@.map_values(|t: Tensor| t@),
            grads: self.grads@.map_values(
                |g: Option<NDArray>|
                    match g {
                        None => None,
                        Some(a) => Some(a@),
                    },
            ),
        }
    }
}

/// Well-formedness of one node: its data is well formed and, if produced,
/// it records exactly two strictly earlier inputs whose shapes are
/// broadcast-compatible and merge to its own shape.
pub open spec fn node_wf(nodes: Seq<TensorView>, i: int) -> bool {
    nodes[i].data.wf() && match nodes[i].ctx {
        None => true,
        Some((op, saved)) => op == Operation::Add && saved.len() == 2 && (saved[0] as int) < i && (
        saved[1] as int) < i && dims_compatible(
            nodes[saved[0] as int].data.shape,
            nodes[saved[1] as int].data.shape,
        ) && nodes[i].data.shape == bc_shape(
            nodes[saved[0] as int].data.shape,
            nodes[saved[1] as int].data.shape,
        ),
    }
}

/// Well-formedness of a tape: one gradient slot per node, every node well
/// formed, and every present gradient shaped like its node's data.
pub open spec fn tape_wf(t: TapeView) -> bool {
    t.grads.len() == t.nodes.len() && (forall|i: int|
        0 <= i < t.nodes.len() ==> #[trigger] node_wf(t.nodes, i)) && (forall|i: int|
        0 <= i < t.grads.len() ==> match #[trigger] t.grads[i] {
            None => true,
            Some(g) => g.wf() && g.shape == t.nodes[i].data.shape,
        })
}

/// Element-wise sum of two mathematical gradients of equal length.
pub open spec fn add_grads(a: Seq<int>, b: Seq<int>) -> Seq<int> {
    Seq::new(a.len(), |i: int| a[i] + b[i])
}

/// Accumulate an incoming gradient into a pending slot: start it when the
/// slot is empty, sum with what is already there otherwise.
pub open spec fn acc_grad(o: Option<Seq<int>>, g: Seq<int>) -> Seq<int> {
    match o {
        None => g,
        Some(h) => add_grads(h, g),
    }
}

/// One step of the backward traversal at node `id`: if the node has a
/// completed incoming gradient and provenance, reduce the gradient to each
/// input's shape and accumulate it there — into the same slot twice when
/// one tensor feeds both inputs.
pub open spec fn bw_step(
    nodes: Seq<TensorView>,
    pending: Seq<Option<Seq<int>>>,
    id: int,
) -> Seq<Option<Seq<int>>> {
    match pending[id] {
        None => pending,
        Some(g) => match nodes[id].ctx {
            None => pending,
            Some((op, saved)) => {
                let x = saved[0] as int;
                let y = saved[1] as int;
                let t = nodes[id].data.shape;
                let gx = reduce_grad(g, t, nodes[x].data.shape);
                let p1 = pending.update(x, Some(acc_grad(pending[x], gx)));
                let gy = reduce_grad(g, t, nodes[y].data.shape);
                p1.update(y, Some(acc_grad(p1[y], gy)))
            },
        },
    }
}

/// The backward traversal from node `id` down to node 0 in descending
/// index order — a reverse topological order of the tape, so every node's
/// incoming gradient is complete before the traversal reaches it.
pub open spec fn bw_run(
    nodes: Seq<TensorView>,
    pending: Seq<Option<Seq<int>>>,
    id: int,
) -> Seq<Option<Seq<int>>>
    decreases id + 1,
{
    if id < 0 {
        pending
    } else {
        bw_run(nodes, bw_step(nodes, pending, id), id - 1)
    }
}

/// The all-ones seed gradient of a given element count.
pub open spec fn ones_grad(len: int) -> Seq<int> {
    Seq::new(len as nat, |i: int| 1int)
}

/// The initial pending state of a traversal: the root is seeded with the
/// all-ones gradient of its own shape, every other slot is empty.
pub open spec fn bw_init(nodes: Seq<TensorView>, root: int) -> Seq<Option<Seq<int>>> {
    Seq::new(
        nodes.len(),
        |i: int|
            if i == root {
                Some(ones_grad(prod(nodes[root].data.shape)))
            } else {
                None
            },
    )
}

/// The completed incoming gradient of every node after a backward
/// traversal from `root`: the sum of the contributions the node receives
/// along every path from the root.
pub open spec fn final_pending(nodes: Seq<TensorView>, root: int) -> Seq<Option<Seq<int>>> {
    bw_run(nodes, bw_init(nodes, root), root)
}

/// Every element of a mathematical gradient is representable.
pub open spec fn seq_fits(s: Seq<int>) -> bool {
    forall|i: int| 0 <= i < s.len() ==> fits_i32(#[trigger] s[i])
}

/// The machine limits of one backward step: the reductions to both inputs
/// and the two accumulations stay within the element type.
pub open spec fn bw_step_ok(nodes: Seq<TensorView>, pending: Seq<Option<Seq<int>>>, id: int) -> bool {
    match pending[id] {
        None => true,
        Some(g) => match nodes[id].ctx {
            None => true,
            Some((op, saved)) => {
                let x = saved[0] as int;
                let y = saved[1] as int;
                let t = nodes[id].data.shape;
                let gx = reduce_grad(g, t, nodes[x].data.shape);
                let p1 = pending.update(x, Some(acc_grad(pending[x], gx)));
                let gy = reduce_grad(g, t, nodes[y].data.shape);
                reduce_fits(g, t, nodes[x].data.shape) && seq_fits(acc_grad(pending[x], gx))
                    && reduce_fits(g, t, nodes[y].data.shape) && seq_fits(acc_grad(p1[y], gy))
            },
        },
    }
}

/// The machine limits of the whole traversal from `id` downward.
pub open spec fn bw_run_ok(nodes: Seq<TensorView>, pending: Seq<Option<Seq<int>>>, id: int) -> bool
    decreases id + 1,
{
    id < 0 || (bw_step_ok(nodes, pending, id) && bw_run_ok(
        nodes,
        bw_step(nodes, pending, id),
        id - 1,
    ))
}

/// The mathematical value of a gradient slot.
pub open spec fn opt_ints(o: Option<NDView>) -> Option<Seq<int>> {
    match o {
        None => None,
        Some(v) => Some(ints(v.buf)),
    }
}

/// All machine limits of a backward traversal from `root`: every
/// intermediate reduction and accumulation, and the final write into each
/// gradient slot, stays within the element type.
pub open spec fn backward_ok(t: TapeView, root: int) -> bool {
    bw_run_ok(t.nodes, bw_init(t.nodes, root), root) && forall|i: int|
        0 <= i < t.nodes.len() ==> match #[trigger] final_pending(t.nodes, root)[i] {
            None => true,
            Some(g) => seq_fits(acc_grad(opt_ints(t.grads[i]), g)),
        }
}

/// The mathematical value of the traversal's working state.
pub open spec fn lifted(p: Seq<Option<Vec<i32>>>) -> Seq<Option<Seq<int>>> {
    p.map_values(
        |o: Option<Vec<i32>>|
            match o {
                None => None,
                Some(v) => Some(ints(v@)),
            },
    )
}

/// A backward step at `id` writes only to the pending slots of the node's
/// saved inputs, which lie strictly below `id`.
proof fn lemma_bw_step_frame(
    nodes: Seq<TensorView>,
    pending: Seq<Option<Seq<int>>>,
    id: int,
    j: int,
)
    requires
        0 <= id < nodes.len(),
        node_wf(nodes, id),
        pending.len() == nodes.len(),
        id <= j < pending.len(),
    ensures
        bw_step(nodes, pending, id).len() == pending.len(),
        bw_step(nodes, pending, id)[j] == pending[j],
{
    match pending[id] {
        None => {},
        Some(g) => {
            match nodes[id].ctx {
                None => {},
                Some((op, saved)) => {
                    assert((saved[0] as int) < id);
                    assert((saved[1] as int) < id);
                },
            }
        },
    }
}

/// The traversal from `id` downward never changes pending slots at or
/// above `id`.
proof fn lemma_bw_run_frame(nodes: Seq<TensorView>, pending: Seq<Option<Seq<int>>>, id: int, j: int)
    requires
        forall|i: int| 0 <= i < nodes.len() ==> #[trigger] node_wf(nodes, i),
        pending.len() == nodes.len(),
        id < nodes.len(),
        id <= j < pending.len(),
        0 <= j,
    ensures
        bw_run(nodes, pending, id).len() == pending.len(),
        bw_run(nodes, pending, id)[j] == pending[j],
    decreases id + 1,
{
    if id >= 0 {
        lemma_bw_step_frame(nodes, pending, id, j);
        lemma_bw_run_frame(nodes, bw_step(nodes, pending, id), id - 1, j);
    }
}

/// Processing nodes from `id` downward leaves slot `a` unchanged when no
/// node strictly between `a` and `id` holds a pending gradient: a step at
/// or below `a` writes only below itself, and the others have nothing to
/// propagate.
proof fn lemma_bw_run_untouched(
    nodes: Seq<TensorView>,
    pending: Seq<Option<Seq<int>>>,
    id: int,
    a: int,
)
    requires
        forall|i: int| 0 <= i < nodes.len() ==> #[trigger] node_wf(nodes, i),
        pending.len() == nodes.len(),
        id < nodes.len(),
        0 <= a < pending.len(),
        forall|j: int| a < j <= id ==> pending[j] is None,
    ensures
        bw_run(nodes, pending, id)[a] == pending[a],
    decreases id + 1,
{
    if id >= 0 {
        if id > a {
            assert(pending[id] is None);
            assert(bw_step(nodes, pending, id) == pending);
            lemma_bw_run_untouched(nodes, pending, id - 1, a);
        } else {
            lemma_bw_step_frame(nodes, pending, id, a);
            lemma_bw_run_untouched(nodes, bw_step(nodes, pending, id), id - 1, a);
        }
    }
}

/// Diamond-accumulation law: when one tensor `a` feeds both inputs of a
/// single addition `b`, the backward traversal from `b` completes `a`'s
/// incoming gradient as 2 at every element — both paths contribute the
/// all-ones seed and the contributions are summed, so `backward` leaves
/// `2 * ones(a.shape)` in an empty gradient slot of `a`, not
/// `ones(a.shape)`.
pub proof fn lemma_diamond_accumulation(nodes: Seq<TensorView>, a: usize, b: int)
    requires
        forall|i: int| 0 <= i < nodes.len() ==> #[trigger] node_wf(nodes, i),
        0 <= a as int,
        (a as int) < b < nodes.len(),
        nodes[b].ctx == Some((Operation::Add, seq![a, a])),
    ensures
        final_pending(nodes, b)[a as int] == Some(
            Seq::new(prod(nodes[a as int].data.shape) as nat, |q: int| 2int),
        ),
{
    let init = bw_init(nodes, b);
    let sa = nodes[a as int].data.shape;
    let t = nodes[b].data.shape;
    assert(node_wf(nodes, b));
    assert(seq![a, a][0] == a);
    assert(seq![a, a][1] == a);
    assert(bc_shape(sa, sa) =~= sa);
    assert(t == sa);
    let g = ones_grad(prod(t));
    lemma_prod_nonneg(sa);
    assert(init[b] == Some(g));
    assert(g.len() == prod(sa));
    lemma_reduce_identity(g, sa);
    assert(reduce_grad(g, t, sa) == g);
    let p1 = init.update(a as int, Some(acc_grad(init[a as int], reduce_grad(g, t, sa))));
    assert(init[a as int] is None);
    assert(acc_grad(init[a as int], reduce_grad(g, t, sa)) == g);
    let p2 = p1.update(a as int, Some(acc_grad(p1[a as int], reduce_grad(g, t, sa))));
    assert(p1[a as int] == Some(g));
    let twos = Seq::new(prod(sa) as nat, |q: int| 2int);
    assert(acc_grad(Some(g), g) =~= twos);
    assert(bw_step(nodes, init, b) == p2);
    assert(p2[a as int] == Some(twos));
    assert forall|j: int| (a as int) < j <= b - 1 implies p2[j] is None by {
        assert(init[j] is None);
    }
    lemma_bw_run_untouched(nodes, p2, b - 1, a as int);
    assert(final_pending(nodes, b) == bw_run(nodes, p2, b - 1));
}

/// The machine limits of one forward application: when two compatible
/// inputs are added, the merged shape is allocatable and every element sum
/// is representable.
pub open spec fn forward_fits(op: Operation, nodes: Seq<TensorView>, inputs: Seq<usize>) -> bool {
    inputs.len() == 2 ==> {
        let a = nodes[inputs[0] as int].data;
        let b = nodes[inputs[1] as int].data;
        dims_compatible(a.shape, b.shape) ==> prod(bc_shape(a.shape, b.shape)) <= usize::MAX as int
            && add_fits(a, b)
    }
}

/// Well-formedness of a node only reads the node and its earlier inputs,
/// so extending the tape preserves it.
proof fn lemma_node_wf_prefix(n1: Seq<TensorView>, n2: Seq<TensorView>, i: int)
    requires
        0 <= i < n1.len(),
        n1.len() <= n2.len(),
        forall|q: int| 0 <= q < n1.len() ==> n1[q] == n2[q],
        node_wf(n1, i),
    ensures
        node_wf(n2, i),
{
    assert(n2[i] == n1[i]);
    match n1[i].ctx {
        None => {},
        Some((op, saved)) => {
            assert(n2[saved[0] as int] == n1[saved[0] as int]);
            assert(n2[saved[1] as int] == n1[saved[1] as int]);
        },
    }
}

impl Operation {
    /// Run the operation's forward rule on the given input nodes and
    /// record them in the context.  Fails with `ArityError` unless exactly
    /// two inputs are given, then with `ShapeError` when their shapes are
    /// not broadcast-compatible.
    pub fn forward(&self, ctx: &mut Context, tape: &Tape, inputs: &Vec<usize>) -> (r: Result<
        NDArray,
        AdError,
    >)
        requires
            tape_wf(tape@),
            forall|i: int|
                0 <= i < inputs@.len() ==> (#[trigger] inputs@[i] as int) < tape@.nodes.len(),
            forward_fits(*self, tape@.nodes, inputs@),
        ensures
            match r {
                Ok(d) => inputs@.len() == 2 && dims_compatible(
                    tape@.nodes[inputs@[0] as int].data.shape,
                    tape@.nodes[inputs@[1] as int].data.shape,
                ) && d@.wf() && add_output(
                    tape@.nodes[inputs@[0] as int].data,
                    tape@.nodes[inputs@[1] as int].data,
                    d@,
                ) && final(ctx)@ == inputs@,
                Err(e) => final(ctx)@ == old(ctx)@ && (if e == AdError::ArityError {
                    inputs@.len() != 2
                } else {
                    e == AdError::ShapeError && inputs@.len() == 2 && !dims_compatible(
                        tape@.nodes[inputs@[0] as int].data.shape,
                        tape@.nodes[inputs@[1] as int].data.shape,
                    )
                }),
            },
    {
        match self {
            Operation::Add => {
                if inputs.len() != 2 {
                    return Err(AdError::ArityError);
                }
                let ia = inputs[0];
                let ib = inputs[1];
                proof {
                    assert(node_wf(tape@.nodes, ia as int));
                    assert(node_wf(tape@.nodes, ib as int));
                }
                let d = match tape.nodes[ia].data.add(&tape.nodes[ib].data) {
                    Ok(v) => v,
                    Err(e) => {
                        return Err(e);
                    },
                };
                ctx.saved_tensors = copy_usizes(inputs);
                Ok(d)
            },
        }
    }


    /// The backward rule of the operation: one gradient per saved input,
    /// in input order, each reduced from the output gradient's (broadcast)
    /// shape back down to that input's own shape — axes the input held
    /// with size 1 and leading axes it lacked are summed out.
    pub fn backward(&self, ctx: &Context, tape: &Tape, grad_output: &NDArray) -> (r: Vec<NDArray>)
        requires
            tape_wf(tape@),
            ctx@.len() == 2,
            (ctx@[0] as int) < tape@.nodes.len(),
            (ctx@[1] as int) < tape@.nodes.len(),
            grad_output@.wf(),
            dims_compatible(
                tape@.nodes[ctx@[0] as int].data.shape,
                tape@.nodes[ctx@[1] as int].data.shape,
            ),
            grad_output@.shape == bc_shape(
                tape@.nodes[ctx@[0] as int].data.shape,
                tape@.nodes[ctx@[1] as int].data.shape,
            ),
            reduce_fits(
                ints(grad_output@.buf),
                grad_output@.shape,
                tape@.nodes[ctx@[0] as int].data.shape,
            ),
            reduce_fits(
                ints(grad_output@.buf),
                grad_output@.shape,
                tape@.nodes[ctx@[1] as int].data.shape,
            ),
        ensures
            r@.len() == 2,
            forall|k: int|
                0 <= k < 2 ==> (#[trigger] r@[k])@.wf() && r@[k]@.shape == tape@.nodes[ctx@[k] as int].data.shape
                    && ints(r@[k]@.buf) == reduce_grad(
                    ints(grad_output@.buf),
                    grad_output@.shape,
                    tape@.nodes[ctx@[k] as int].data.shape,
                ),
    {
        match self {
            Operation::Add => {
                let x = ctx.saved_tensors[0];
                let y = ctx.saved_tensors[1];
                proof {
                    assert(node_wf(tape@.nodes, x as int));
                    assert(node_wf(tape@.nodes, y as int));
                    lemma_compat_expandable(
                        tape@.nodes[x as int].data.shape,
                        tape@.nodes[y as int].data.shape,
                    );
                }
                let bxl = tape.data(x).buf().len();
                let byl = tape.data(y).buf().len();
                proof {
                    assert(bxl as int == prod(tape@.nodes[x as int].data.shape));
                    assert(byl as int == prod(tape@.nodes[y as int].data.shape));
                }
                let gx = reduce_to(grad_output.buf(), grad_output.shape(), tape.data(x).shape());
                let gy = reduce_to(grad_output.buf(), grad_output.shape(), tape.data(y).shape());
                let ndx = NDArray::from_raw(gx, copy_usizes(tape.data(x).shape()));
                let ndy = NDArray::from_raw(gy, copy_usizes(tape.data(y).shape()));
                let mut r: Vec<NDArray> = Vec::new();
                r.push(ndx);
                r.push(ndy);
                proof {
                    assert(r@.len() == 2);
                    assert(r@[0]@.shape == tape@.nodes[x as int].data.shape);
                    assert(r@[1]@.shape == tape@.nodes[y as int].data.shape);
                }
                r
            },
        }
    }

    /// Apply the operation: run forward with a fresh context and append
    /// the produced node (with an empty gradient slot) to the tape,
    /// returning the new node's id.
    pub fn apply(&self, tape: &mut Tape, inputs: &Vec<usize>) -> (r: Result<usize, AdError>)
        requires
            tape_wf(old(tape)@),
            forall|i: int|
                0 <= i < inputs@.len() ==> (#[trigger] inputs@[i] as int) < old(tape)@.nodes.len(),
            forward_fits(*self, old(tape)@.nodes, inputs@),
        ensures
            match r {
                Ok(id) => id == old(tape)@.nodes.len() && tape_wf(final(tape)@) && inputs@.len()
                    == 2 && final(tape)@.grads == old(tape)@.grads.push(None) && final(tape)@.nodes.len() == old(tape)@.nodes.len() + 1 && (forall|i: int|
                    0 <= i < old(tape)@.nodes.len() ==> #[trigger] final(tape)@.nodes[i] == old(tape)@.nodes[i]) && final(tape)@.nodes[id as int].ctx == Some((*self, inputs@))
                    && dims_compatible(
                    old(tape)@.nodes[inputs@[0] as int].data.shape,
                    old(tape)@.nodes[inputs@[1] as int].data.shape,
                ) && add_output(
                    old(tape)@.nodes[inputs@[0] as int].data,
                    old(tape)@.nodes[inputs@[1] as int].data,
                    final(tape)@.nodes[id as int].data,
                ),
                Err(e) => final(tape)@ == old(tape)@ && (if e == AdError::ArityError {
                    inputs@.len() != 2
                } else {
                    e == AdError::ShapeError && inputs@.len() == 2 && !dims_compatible(
                        old(tape)@.nodes[inputs@[0] as int].data.shape,
                        old(tape)@.nodes[inputs@[1] as int].data.shape,
                    )
                }),
            },
    {
        let mut ctx = Context::new();
        let d = match self.forward(&mut ctx, tape, inputs) {
            Ok(v) => v,
            Err(e) => {
                return Err(e);
            },
        };
        let id = tape.nodes.len();
        let t = Tensor { data: d, ctx: Some((*self, ctx)) };
        let ghost tv = t@;
        let ghost nodes0 = tape@.nodes;
        let ghost grads0 = tape@.grads;
        tape.nodes.push(t);
        tape.grads.push(None);
        proof {
            assert(tape@.nodes =~= nodes0.push(tv));
            assert(tape@.grads =~= grads0.push(None));
            assert forall|i: int| 0 <= i < tape@.nodes.len() implies #[trigger] node_wf(
                tape@.nodes,
                i,
            ) by {
                if i < id {
                    assert(node_wf(nodes0, i));
                    lemma_node_wf_prefix(nodes0, tape@.nodes, i);
                } else {
                    assert(tape@.nodes[i] == tv);
                    assert(tv.ctx == Some((Operation::Add, inputs@)));
                    assert(tape@.nodes[inputs@[0] as int] == nodes0[inputs@[0] as int]);
                    assert(tape@.nodes[inputs@[1] as int] == nodes0[inputs@[1] as int]);
                }
            }
            assert forall|i: int| 0 <= i < tape@.grads.len() implies match #[trigger] tape@.grads[i] {
                None => true,
                Some(g) => g.wf() && g.shape == tape@.nodes[i].data.shape,
            } by {
                if i < id {
                    assert(tape@.grads[i] == grads0[i]);
                    assert(tape@.nodes[i] == nodes0[i]);
                }
            }
        }
        Ok(id)
    }
}

impl Tape {
    /// An empty tape.
    pub fn new() -> (t: Tape)
        ensures
            t@.nodes == Seq::<TensorView>::empty(),
            t@.grads == Seq::<Option<NDView>>::empty(),
            tape_wf(t@),
    {
        let t = Tape { nodes: Vec::new(), grads: Vec::new() };
        proof {
            assert(t@.nodes =~= Seq::<TensorView>::empty());
            assert(t@.grads =~= Seq::<Option<NDView>>::empty());
        }
        t
    }

    /// The number of nodes on the tape.
    pub fn len(&self) -> (n: usize)
        ensures
            n == self@.nodes.len(),
    {
        self.nodes.len()
    }

    /// Append a leaf tensor, returning its node id.
    pub fn push(&mut self, t: Tensor) -> (id: usize)
        requires
            tape_wf(old(self)@),
            t@.data.wf(),
            t@.ctx is None,
        ensures
            tape_wf(final(self)@),
            id == old(self)@.nodes.len(),
            final(self)@.nodes == old(self)@.nodes.push(t@),
            final(self)@.grads == old(self)@.grads.push(None),
    {
        let id = self.nodes.len();
        let ghost tv = t@;
        let ghost nodes0 = self@.nodes;
        let ghost grads0 = self@.grads;
        self.nodes.push(t);
        self.grads.push(None);
        proof {
            assert(self@.nodes =~= nodes0.push(tv));
            assert(self@.grads =~= grads0.push(None));
            assert forall|i: int| 0 <= i < self@.nodes.len() implies #[trigger] node_wf(
                self@.nodes,
                i,
            ) by {
                if i < id {
                    assert(node_wf(nodes0, i));
                    lemma_node_wf_prefix(nodes0, self@.nodes, i);
                } else {
                    assert(self@.nodes[i] == tv);
                }
            }
            assert forall|i: int| 0 <= i < self@.grads.len() implies match #[trigger] self@.grads[i] {
                None => true,
                Some(g) => g.wf() && g.shape == self@.nodes[i].data.shape,
            } by {
                if i < id {
                    assert(self@.grads[i] == grads0[i]);
                    assert(self@.nodes[i] == nodes0[i]);
                }
            }
        }
        id
    }

    /// The tensor data stored at node `id`.
    pub fn data(&self, id: usize) -> (d: &NDArray)
        requires
            (id as int) < self@.nodes.len(),
        ensures
            d@ == self@.nodes[id as int].data,
    {
        &self.nodes[id].data
    }

    /// The gradient slot of node `id`: absent until a backward pass
    /// reaches the node.
    pub fn grad(&self, id: usize) -> (g: &Option<NDArray>)
        requires
            (id as int) < self@.grads.len(),
        ensures
            match g {
                None => self@.grads[id as int] is None,
                Some(nd) => self@.grads[id as int] == Some(nd@),
            },
    {
        &self.grads[id]
    }
}

impl Tensor {
    /// A leaf tensor holding the given data, with no provenance and no
    /// gradient.
    pub fn new(data: NDArray) -> (t: Tensor)
        ensures
            t@.data == data@,
            t@.ctx is None,
    {
        Tensor { data, ctx: None }
    }

    /// A new produced tensor holding the broadcasting sum of nodes `a` and
    /// `b`, recorded on the tape with its provenance.
    pub fn add(tape: &mut Tape, a: usize, b: usize) -> (r: Result<usize, AdError>)
        requires
            tape_wf(old(tape)@),
            (a as int) < old(tape)@.nodes.len(),
            (b as int) < old(tape)@.nodes.len(),
            forward_fits(Operation::Add, old(tape)@.nodes, seq![a, b]),
        ensures
            match r {
                Ok(id) => id == old(tape)@.nodes.len() && tape_wf(final(tape)@) && final(tape)@.grads == old(tape)@.grads.push(None) && final(tape)@.nodes.len() == old(tape)@.nodes.len() + 1 && (forall|i: int|
                    0 <= i < old(tape)@.nodes.len() ==> #[trigger] final(tape)@.nodes[i] == old(tape)@.nodes[i]) && final(tape)@.nodes[id as int].ctx == Some(
                    (Operation::Add, seq![a, b]),
                ) && dims_compatible(
                    old(tape)@.nodes[a as int].data.shape,
                    old(tape)@.nodes[b as int].data.shape,
                ) && add_output(
                    old(tape)@.nodes[a as int].data,
                    old(tape)@.nodes[b as int].data,
                    final(tape)@.nodes[id as int].data,
                ),
                Err(e) => final(tape)@ == old(tape)@ && e == AdError::ShapeError
                    && !dims_compatible(
                    old(tape)@.nodes[a as int].data.shape,
                    old(tape)@.nodes[b as int].data.shape,
                ),
            },
    {
        let mut inputs: Vec<usize> = Vec::new();
        inputs.push(a);
        inputs.push(b);
        proof {
            assert(inputs@ =~= seq![a, b]);
        }
        let op = Operation::Add;
        op.apply(tape, &inputs)
    }

    /// Reverse-mode gradient propagation from `root`: seed the root's
    /// incoming gradient with ones, process nodes in reverse topological
    /// (descending index) order, accumulate every incoming contribution
    /// into the node's gradient slot, and propagate the completed
    /// gradient, shape-reduced, to the node's saved inputs.  A node with
    /// several consumers (a diamond) therefore receives the sum of all
    /// contributions before it propagates anything.
    #[verifier::loop_isolation(false)]
    #[verifier::rlimit(100)]
    pub fn backward(tape: &mut Tape, root: usize)
        requires
            tape_wf(old(tape)@),
            (root as int) < old(tape)@.nodes.len(),
            backward_ok(old(tape)@, root as int),
        ensures
            tape_wf(final(tape)@),
            final(tape)@.nodes == old(tape)@.nodes,
            final(tape)@.grads.len() == old(tape)@.grads.len(),
            forall|i: int|
                0 <= i < final(tape)@.grads.len() ==> match #[trigger] final_pending(
                    old(tape)@.nodes,
                    root as int,
                )[i] {
                    None => final(tape)@.grads[i] == old(tape)@.grads[i],
                    Some(g) => final(tape)@.grads[i] matches Some(nd) && nd.shape == old(tape)@.nodes[i].data.shape && ints(nd.buf) == acc_grad(
                        opt_ints(old(tape)@.grads[i]),
                        g,
                    ),
                },
    {
        let ghost nodes0 = old(tape)@.nodes;
        let ghost grads0 = old(tape)@.grads;
        let ghost fp = final_pending(nodes0, root as int);
        let nn = tape.nodes.len();
        let mut pending: Vec<Option<Vec<i32>>> = Vec::new();
        while pending.len() < nn
            invariant
                pending@.len() <= nn,
                forall|q: int| 0 <= q < pending@.len() ==> #[trigger] pending@[q] is None,
            decreases nn - pending@.len(),
        {
            pending.push(None);
        }
        proof {
            assert(node_wf(nodes0, root as int));
        }
        let rl = tape.nodes[root].data.buf().len();
        let mut seed: Vec<i32> = Vec::new();
        while seed.len() < rl
            invariant
                seed@.len() <= rl,
                forall|q: int| 0 <= q < seed@.len() ==> #[trigger] seed@[q] == 1i32,
            decreases rl - seed@.len(),
        {
            seed.push(1);
        }
        pending.set(root, Some(seed));
        proof {
            assert(rl as int == prod(nodes0[root as int].data.shape));
            assert(lifted(pending@) =~= bw_init(nodes0, root as int)) by {
                assert forall|q: int|
                    0 <= q < nn implies lifted(pending@)[q] == bw_init(nodes0, root as int)[q] by {
                    if q == root as int {
                        assert(ints(seed@) =~= ones_grad(rl as int));
                    }
                }
            }
        }
        proof {
            assert forall|q: int| (root as int) < q < nn implies #[trigger] fp[q] is None by {
                lemma_bw_run_frame(nodes0, bw_init(nodes0, root as int), root as int, q);
            }
        }
        let mut i: usize = root + 1;
        while i > 0
            invariant
                0 <= i <= root + 1,
                tape@.nodes == nodes0,
                tape@.grads.len() == grads0.len(),
                pending@.len() == nn,
                tape_wf(tape@),
                bw_run(nodes0, lifted(pending@), i as int - 1) == fp,
                bw_run_ok(nodes0, lifted(pending@), i as int - 1),
                forall|q: int|
                    0 <= q < pending@.len() ==> match #[trigger] lifted(pending@)[q] {
                        None => true,
                        Some(g) => g.len() == prod(nodes0[q].data.shape),
                    },
                forall|q: int| 0 <= q < i ==> #[trigger] tape@.grads[q] == grads0[q],
                forall|q: int|
                    i <= q < nn ==> match #[trigger] fp[q] {
                        None => tape@.grads[q] == grads0[q],
                        Some(g) => tape@.grads[q] matches Some(nd) && nd.shape
                            == nodes0[q].data.shape && ints(nd.buf) == acc_grad(
                            opt_ints(grads0[q]),
                            g,
                        ),
                    },
            decreases i,
        {
            let id = i - 1;
            let ghost pend0 = lifted(pending@);
            proof {
                lemma_bw_run_frame(nodes0, pend0, id as int, id as int);
                assert(fp[id as int] == pend0[id as int]);
                assert(node_wf(nodes0, id as int));
            }
            let has = pending[id].is_some();
            if has {
                let gbuf = match &pending[id] {
                    Some(v) => copy_i32s(v),
                    None => {
                        proof {
                            assert(false);
                        }
                        Vec::new()
                    },
                };
                proof {
                    assert(pend0[id as int] == Some(ints(gbuf@)));
                    assert(fp[id as int] == Some(ints(gbuf@)));
                    assert(gbuf@.len() == prod(nodes0[id as int].data.shape));
                    // the final write into this gradient slot is representable
                    assert(match fp[id as int] {
                        None => true,
                        Some(g) => seq_fits(acc_grad(opt_ints(grads0[id as int]), g)),
                    });
                    assert(tape@.grads[id as int] == grads0[id as int]);
                }
                let shp = copy_usizes(tape.nodes[id].data.shape());
                let newg: Vec<i32> = match &tape.grads[id] {
                    None => copy_i32s(&gbuf),
                    Some(nd) => {
                        proof {
                            assert(grads0[id as int] == Some(nd@));
                            assert(nd@.wf());
                            assert(nd@.shape == nodes0[id as int].data.shape);
                            assert(acc_grad(opt_ints(grads0[id as int]), ints(gbuf@)) == add_grads(
                                ints(nd@.buf),
                                ints(gbuf@),
                            ));
                            assert forall|q: int|
                                0 <= q < nd@.buf.len() implies fits_i32(
                                #[trigger] nd@.buf[q] as int + gbuf@[q] as int,
                            ) by {
                                assert(add_grads(ints(nd@.buf), ints(gbuf@))[q] == nd@.buf[q] as int
                                    + gbuf@[q] as int);
                            }
                        }
                        add_same(nd.buf(), &gbuf)
                    },
                };
                proof {
                    assert(ints(newg@) =~= acc_grad(opt_ints(grads0[id as int]), ints(gbuf@)));
                    assert(newg@.len() == prod(shp@));
                }
                let nd = NDArray::from_raw(newg, shp);
                let ghost gr0 = tape@.grads;
                tape.grads.set(id, Some(nd));
                proof {
                    assert(tape@.grads =~= gr0.update(id as int, Some(nd@)));
                }
                match &tape.nodes[id].ctx {
                    None => {
                        proof {
                            assert(nodes0[id as int].ctx is None);
                            assert(bw_step(nodes0, pend0, id as int) == pend0);
                        }
                    },
                    Some((op, cx)) => {
                        proof {
                            assert(nodes0[id as int].ctx matches Some((o2, s2)) && s2
                                == cx.saved_tensors@);
                        }
                        let x = cx.saved_tensors[0];
                        let y = cx.saved_tensors[1];
                        let ghost sx = nodes0[x as int].data.shape;
                        let ghost sy = nodes0[y as int].data.shape;
                        let ghost tt = nodes0[id as int].data.shape;
                        let ghost gsp = ints(gbuf@);
                        proof {
                            lemma_compat_expandable(sx, sy);
                            assert(bw_step_ok(nodes0, pend0, id as int));
                            assert(reduce_fits(gsp, tt, sx));
                        }
                        let bxl = tape.nodes[x].data.buf().len();
                        proof {
                            assert(node_wf(nodes0, x as int));
                            assert(bxl as int == prod(sx));
                        }
                        let gx = reduce_to(&gbuf, tape.nodes[id].data.shape(), tape.nodes[x].data.shape());
                        let ghost gxs = reduce_grad(gsp, tt, sx);
                        let ghost p1 = pend0.update(
                            x as int,
                            Some(acc_grad(pend0[x as int], gxs)),
                        );
                        proof {
                            assert(ints(gx@) =~= gxs);
                            assert(seq_fits(acc_grad(pend0[x as int], gxs)));
                        }
                        let newx: Vec<i32> = match &pending[x] {
                            None => gx,
                            Some(h) => {
                                proof {
                                    assert(pend0[x as int] == Some(ints(h@)));
                                    assert(acc_grad(pend0[x as int], gxs) == add_grads(
                                        ints(h@),
                                        gxs,
                                    ));
                                    assert forall|q: int|
                                        0 <= q < h@.len() implies fits_i32(
                                        #[trigger] h@[q] as int + gx@[q] as int,
                                    ) by {
                                        assert(add_grads(ints(h@), gxs)[q] == h@[q] as int
                                            + gx@[q] as int);
                                    }
                                }
                                add_same(h, &gx)
                            },
                        };
                        let ghost pv0 = pending@;
                        pending.set(x, Some(newx));
                        proof {
                            assert(lifted(pending@) =~= p1) by {
                                assert(pending@ =~= pv0.update(x as int, Some(newx)));
                                assert forall|q: int|
                                    0 <= q < nn implies lifted(pending@)[q] == p1[q] by {
                                    if q == x as int {
                                        assert(ints(newx@) =~= acc_grad(pend0[x as int], gxs));
                                    }
                                }
                            }
                            assert(reduce_fits(gsp, tt, sy));
                        }
                        let byl = tape.nodes[y].data.buf().len();
                        proof {
                            assert(node_wf(nodes0, y as int));
                            assert(byl as int == prod(sy));
                        }
                        let gy = reduce_to(&gbuf, tape.nodes[id].data.shape(), tape.nodes[y].data.shape());
                        let ghost gys = reduce_grad(gsp, tt, sy);
                        let ghost p2 = p1.update(
                            y as int,
                            Some(acc_grad(p1[y as int], gys)),
                        );
                        proof {
                            assert(ints(gy@) =~= gys);
                            assert(seq_fits(acc_grad(p1[y as int], gys)));
                            assert(lifted(pending@)[y as int] == p1[y as int]);
                        }
                        let newy: Vec<i32> = match &pending[y] {
                            None => gy,
                            Some(h) => {
                                proof {
                                    assert(p1[y as int] == Some(ints(h@)));
                                    assert(acc_grad(p1[y as int], gys) == add_grads(ints(h@), gys));
                                    assert forall|q: int|
                                        0 <= q < h@.len() implies fits_i32(
                                        #[trigger] h@[q] as int + gy@[q] as int,
                                    ) by {
                                        assert(add_grads(ints(h@), gys)[q] == h@[q] as int
                                            + gy@[q] as int);
                                    }
                                }
                                add_same(h, &gy)
                            },
                        };
                        let ghost pv1 = pending@;
                        pending.set(y, Some(newy));
                        proof {
                            assert(lifted(pending@) =~= p2) by {
                                assert(pending@ =~= pv1.update(y as int, Some(newy)));
                                assert forall|q: int|
                                    0 <= q < nn implies lifted(pending@)[q] == p2[q] by {
                                    if q == y as int {
                                        assert(ints(newy@) =~= acc_grad(p1[y as int], gys));
                                    }
                                }
                            }
                            assert(bw_step(nodes0, pend0, id as int) == p2);
                        }
                    },
                }
            } else {
                proof {
                    assert(pend0[id as int] is None);
                    assert(bw_step(nodes0, pend0, id as int) == pend0);
                    assert(fp[id as int] is None);
                }
            }
            i = id;
            proof {
                assert(lifted(pending@) == bw_step(nodes0, pend0, id as int));
                assert(bw_run(nodes0, pend0, id as int) == bw_run(
                    nodes0,
                    lifted(pending@),
                    id as int - 1,
                ));
            }
        }
    }
}

} // verus!
