use burn_engine::attention::{
    attention_backward_fallback, attention_fallback, AttentionBackwardConfig,
    AttentionGradients, AttentionModuleOptions,
};
use burn_engine::backend::Backend;
use burn_engine::checkpoint::{
    checkpoint_block, AutodiffBackend, CheckpointBlock, CheckpointBlockSplit, CheckpointError,
    Checkpointed,
};
use burn_engine::dispatch::{
    checkpoint, BackendTag, BackendTensor, CheckpointingStrategy, DispatchBlock, DispatchTensor,
    DispatchTensorKind,
};
use burn_engine::dtype::{BoolStore, DType, FloatDType};
use burn_engine::linear::{linear, mixed_linear, mixed_linear_backward};
use burn_engine::tensor::{Float, Tensor, TensorMetadata};
use std::cell::{Cell, RefCell};
use std::collections::{BTreeMap, HashMap};
use std::rc::Rc;
use std::sync::Arc;

// ---- A small backend on the host ----

#[derive(Clone, Debug, PartialEq)]
struct Nd32 {
    shape: Vec<usize>,
    data: Rc<Vec<f32>>,
    dtype: DType,
}

#[derive(Clone, Debug)]
struct NdInt {
    shape: Vec<usize>,
    data: Vec<i64>,
}

#[derive(Clone, Debug)]
struct NdBool {
    shape: Vec<usize>,
    data: Vec<bool>,
}

fn nd(data: Vec<f32>, shape: &[usize]) -> Nd32 {
    assert_eq!(data.len(), shape.iter().product::<usize>());
    Nd32 { shape: shape.to_vec(), data: Rc::new(data), dtype: DType::F32 }
}

fn to_vec(tensor: &Nd32) -> Vec<f32> {
    tensor.data.to_vec()
}

fn strides(shape: &[usize]) -> Vec<usize> {
    let mut result = vec![1; shape.len()];
    for i in (0..shape.len().saturating_sub(1)).rev() {
        result[i] = result[i + 1] * shape[i + 1];
    }
    result
}

fn unravel(mut flat: usize, shape: &[usize]) -> Vec<usize> {
    let mut index = vec![0; shape.len()];
    for i in (0..shape.len()).rev() {
        index[i] = flat % shape[i];
        flat /= shape[i];
    }
    index
}

fn ravel(index: &[usize], shape: &[usize]) -> usize {
    index
        .iter()
        .zip(strides(shape))
        .zip(shape)
        .map(|((i, s), d)| if *d == 1 { 0 } else { i * s })
        .sum()
}

fn map(tensor: &Nd32, f: impl Fn(f32) -> f32) -> Nd32 {
    let data = tensor.data.iter().map(|x| round_to(f(*x), tensor.dtype)).collect();
    Nd32 { shape: tensor.shape.clone(), data: Rc::new(data), dtype: tensor.dtype }
}

fn zip(lhs: &Nd32, rhs: &Nd32, f: impl Fn(f32, f32) -> f32) -> Nd32 {
    assert_eq!(lhs.shape.len(), rhs.shape.len(), "ranks differ");
    let shape: Vec<usize> = lhs
        .shape
        .iter()
        .zip(&rhs.shape)
        .map(|(&l, &r)| {
            assert!(l == r || l == 1 || r == 1, "shapes differ: {:?} {:?}", lhs.shape, rhs.shape);
            if l != 1 { l } else { r }
        })
        .collect();
    let data = (0..shape.iter().product())
        .map(|i| {
            let index = unravel(i, &shape);
            let (l, r) = (ravel(&index, &lhs.shape), ravel(&index, &rhs.shape));
            round_to(f(lhs.data[l], rhs.data[r]), lhs.dtype)
        })
        .collect();
    Nd32 { shape, data: Rc::new(data), dtype: lhs.dtype }
}

fn round_to(x: f32, dtype: DType) -> f32 {
    if dtype == DType::BF16 && x.is_finite() {
        let bits = x.to_bits();
        let rounded = bits.wrapping_add(0x7fff + ((bits >> 16) & 1));
        f32::from_bits(rounded & 0xffff_0000)
    } else {
        x
    }
}

fn fold_dim(tensor: &Nd32, dim: usize, start: f32, f: impl Fn(f32, f32) -> f32) -> Nd32 {
    let mut shape = tensor.shape.clone();
    shape[dim] = 1;
    let mut data = vec![start; shape.iter().product()];
    for i in 0..tensor.data.len() {
        let index = unravel(i, &tensor.shape);
        let at = ravel(&index, &shape);
        data[at] = f(data[at], tensor.data[i]);
    }
    Nd32 { shape, data: Rc::new(data), dtype: tensor.dtype }
}

struct Nd;

impl Backend for Nd {
    type FloatTensor = Nd32;
    type IntTensor = NdInt;
    type BoolTensor = NdBool;
    type Device = ();
    type Scalar = f64;
    type FloatValue = ();

    fn float_shape(tensor: &Nd32) -> Vec<usize> {
        tensor.shape.clone()
    }
    fn float_dtype(tensor: &Nd32) -> DType {
        tensor.dtype
    }
    fn float_clone(tensor: &Nd32) -> Nd32 {
        tensor.clone()
    }
    fn float_device(_tensor: &Nd32) {}
    fn is_positive(number: f64) -> bool {
        number > 0.0
    }
    fn scalar_negative_infinity() -> f64 {
        f64::NEG_INFINITY
    }
    fn scalar_zero() -> f64 {
        0.0
    }
    fn scalar_inverse_sqrt(n: usize) -> f64 {
        1.0 / (n as f64).sqrt()
    }
    fn scalar_lowest(_dtype: DType) -> f64 {
        f32::MIN as f64
    }
    fn scalar_least_positive(_dtype: DType) -> f64 {
        f32::MIN_POSITIVE as f64
    }
    fn float_tanh(tensor: Nd32) -> Nd32 {
        map(&tensor, f32::tanh)
    }
    fn float_exp(tensor: Nd32) -> Nd32 {
        map(&tensor, f32::exp)
    }
    fn float_log(tensor: Nd32) -> Nd32 {
        map(&tensor, f32::ln)
    }
    fn relu(tensor: Nd32) -> Nd32 {
        map(&tensor, |x| x.max(0.0))
    }
    fn float_add(lhs: Nd32, rhs: Nd32) -> Nd32 {
        zip(&lhs, &rhs, |a, b| a + b)
    }
    fn float_sub(lhs: Nd32, rhs: Nd32) -> Nd32 {
        zip(&lhs, &rhs, |a, b| a - b)
    }
    fn float_mul(lhs: Nd32, rhs: Nd32) -> Nd32 {
        zip(&lhs, &rhs, |a, b| a * b)
    }
    fn float_div(lhs: Nd32, rhs: Nd32) -> Nd32 {
        zip(&lhs, &rhs, |a, b| a / b)
    }
    fn float_mul_scalar(lhs: Nd32, rhs: f64) -> Nd32 {
        map(&lhs, |x| x * rhs as f32)
    }
    fn float_div_scalar(lhs: Nd32, rhs: f64) -> Nd32 {
        map(&lhs, |x| x / rhs as f32)
    }
    fn float_clamp_min(tensor: Nd32, min: f64) -> Nd32 {
        map(&tensor, |x| x.max(min as f32))
    }
    fn float_matmul(lhs: Nd32, rhs: Nd32) -> Nd32 {
        let rank = lhs.shape.len();
        assert_eq!(rank, rhs.shape.len(), "ranks differ");
        let (m, k, n) = (lhs.shape[rank - 2], lhs.shape[rank - 1], rhs.shape[rank - 1]);
        assert_eq!(k, rhs.shape[rank - 2]);
        let mut shape: Vec<usize> =
            (0..rank - 2).map(|i| lhs.shape[i].max(rhs.shape[i])).collect();
        shape.push(m);
        shape.push(n);
        let total: usize = shape.iter().product();
        let data = (0..total)
            .map(|flat| {
                let index = unravel(flat, &shape);
                let mut left = index.clone();
                let mut right = index.clone();
                let sum = (0..k)
                    .map(|x| {
                        left[rank - 1] = x;
                        right[rank - 2] = x;
                        lhs.data[ravel(&left, &lhs.shape)] * rhs.data[ravel(&right, &rhs.shape)]
                    })
                    .sum();
                round_to(sum, lhs.dtype)
            })
            .collect();
        Nd32 { shape, data: Rc::new(data), dtype: lhs.dtype }
    }
    fn float_swap_dims(tensor: Nd32, a: usize, b: usize) -> Nd32 {
        let mut shape = tensor.shape.clone();
        shape.swap(a, b);
        let data = (0..tensor.data.len())
            .map(|flat| {
                let mut index = unravel(flat, &shape);
                index.swap(a, b);
                tensor.data[ravel(&index, &tensor.shape)]
            })
            .collect();
        Nd32 { shape, data: Rc::new(data), dtype: tensor.dtype }
    }
    fn float_sum_dim(tensor: Nd32, dim: usize) -> Nd32 {
        fold_dim(&tensor, dim, 0.0, |a, b| a + b)
    }
    fn float_max_dim(tensor: Nd32, dim: usize) -> Nd32 {
        fold_dim(&tensor, dim, f32::NEG_INFINITY, f32::max)
    }
    fn float_sum(tensor: Nd32) -> Nd32 {
        let sum = tensor.data.iter().sum();
        Nd32 { shape: vec![1], data: Rc::new(vec![sum]), dtype: tensor.dtype }
    }
    fn float_cast(tensor: Nd32, dtype: FloatDType) -> Nd32 {
        let dtype = match dtype {
            FloatDType::F64 => DType::F64,
            FloatDType::F32 => DType::F32,
            FloatDType::Flex32 => DType::Flex32,
            FloatDType::F16 => DType::F16,
            FloatDType::BF16 => DType::BF16,
        };
        let data = tensor.data.iter().map(|x| round_to(*x, dtype)).collect();
        Nd32 { shape: tensor.shape, data: Rc::new(data), dtype }
    }
    fn float_reshape(tensor: Nd32, shape: Vec<usize>) -> Nd32 {
        assert_eq!(shape.iter().product::<usize>(), tensor.data.len());
        Nd32 { shape, ..tensor }
    }
    fn float_slice(tensor: Nd32, ranges: &Vec<(usize, usize)>) -> Nd32 {
        let shape: Vec<usize> = ranges.iter().map(|(s, e)| e - s).collect();
        let data = (0..shape.iter().product())
            .map(|flat| {
                let index: Vec<usize> =
                    unravel(flat, &shape).iter().zip(ranges).map(|(i, r)| i + r.0).collect();
                tensor.data[ravel(&index, &tensor.shape)]
            })
            .collect();
        Nd32 { shape, data: Rc::new(data), dtype: tensor.dtype }
    }
    fn float_slice_assign(tensor: Nd32, ranges: &Vec<(usize, usize)>, part: Nd32) -> Nd32 {
        let mut data = tensor.data.to_vec();
        for flat in 0..part.data.len() {
            let index: Vec<usize> =
                unravel(flat, &part.shape).iter().zip(ranges).map(|(i, r)| i + r.0).collect();
            data[ravel(&index, &tensor.shape)] = part.data[flat];
        }
        Nd32 { shape: tensor.shape, data: Rc::new(data), dtype: tensor.dtype }
    }
    fn float_mask_fill(tensor: Nd32, mask: NdBool, number: f64) -> Nd32 {
        let data = (0..tensor.data.len())
            .map(|i| {
                let index = unravel(i, &tensor.shape);
                if mask.data[ravel(&index, &mask.shape)] { number as f32 } else { tensor.data[i] }
            })
            .collect();
        Nd32 { shape: tensor.shape, data: Rc::new(data), dtype: tensor.dtype }
    }
    fn float_full(shape: Vec<usize>, number: f64, _device: &(), dtype: FloatDType) -> Nd32 {
        let len = shape.iter().product();
        let full = Nd32 { shape, data: Rc::new(vec![number as f32; len]), dtype: DType::F32 };
        Nd::float_cast(full, dtype)
    }
    fn float_zeros(shape: Vec<usize>, device: &(), dtype: FloatDType) -> Nd32 {
        Nd::float_full(shape, 0.0, device, dtype)
    }
    fn int_dtype(_tensor: &NdInt) -> DType {
        DType::I64
    }
    fn bool_dtype(_tensor: &NdBool) -> DType {
        DType::Bool(BoolStore::Native)
    }
    fn int_arange(end: usize, _device: &()) -> NdInt {
        NdInt { shape: vec![end], data: (0..end as i64).collect() }
    }
    fn int_reshape(tensor: NdInt, shape: Vec<usize>) -> NdInt {
        NdInt { shape, data: tensor.data }
    }
    fn int_add_scalar(lhs: NdInt, rhs: i64) -> NdInt {
        NdInt { shape: lhs.shape, data: lhs.data.iter().map(|x| x + rhs).collect() }
    }
    fn int_lower(column: NdInt, row: NdInt) -> NdBool {
        let shape = vec![column.shape[0], row.shape[1]];
        let data =
            column.data.iter().flat_map(|c| row.data.iter().map(move |r| c < r)).collect();
        NdBool { shape, data }
    }
    fn bool_reshape(tensor: NdBool, shape: Vec<usize>) -> NdBool {
        NdBool { shape, data: tensor.data }
    }
    fn bool_expand(tensor: NdBool, shape: Vec<usize>) -> NdBool {
        let len = shape.iter().product();
        let data = tensor.data.iter().cycle().take(len).copied().collect();
        NdBool { shape, data }
    }
}

// ---- A tape of gradients on top of it ----

type Grads = HashMap<u64, Nd32>;

struct NodeData {
    order: usize,
    requires_grad: bool,
    parents: Vec<Node>,
    // What the parents receive for what the node has received.
    pull: Option<Box<dyn Fn(&Nd32) -> Vec<Nd32>>>,
    // What a checkpointed block does on the way back.
    step: RefCell<Option<Box<dyn FnOnce(Grads) -> Grads>>>,
}

#[derive(Clone)]
struct Node(Rc<NodeData>);

impl Node {
    fn id(&self) -> u64 {
        Rc::as_ptr(&self.0) as usize as u64
    }
}

#[derive(Clone)]
struct AdTensor {
    value: Nd32,
    node: Node,
}

fn node_of(
    parents: Vec<Node>,
    requires_grad: bool,
    pull: Option<Box<dyn Fn(&Nd32) -> Vec<Nd32>>>,
) -> Node {
    let order = parents.iter().map(|p| p.0.order + 1).max().unwrap_or(0);
    Node(Rc::new(NodeData { order, requires_grad, parents, pull, step: RefCell::new(None) }))
}

fn op(value: Nd32, parents: Vec<Node>, pull: impl Fn(&Nd32) -> Vec<Nd32> + 'static) -> AdTensor {
    let requires_grad = parents.iter().any(|p| p.0.requires_grad);
    AdTensor { value, node: node_of(parents, requires_grad, Some(Box::new(pull))) }
}

fn leaf(value: Nd32) -> AdTensor {
    AdTensor { value, node: node_of(vec![], false, None) }
}

fn with_grad(value: Nd32) -> AdTensor {
    Ad::require_grad(leaf(value))
}

fn add_grad(grads: &mut Grads, id: u64, grad: Nd32) {
    let sum = match grads.remove(&id) {
        Some(before) => Nd::float_add(before, grad),
        None => grad,
    };
    grads.insert(id, sum);
}

fn collect(node: &Node, all: &mut BTreeMap<u64, Node>) {
    if node.0.requires_grad && all.insert(node.id(), node.clone()).is_none() {
        for parent in &node.0.parents {
            collect(parent, all);
        }
    }
}

// The gradient for a tensor that was repeated to the shape of the gradient.
fn unbroadcast(grad: Nd32, shape: &[usize]) -> Nd32 {
    let mut grad = grad;
    for dim in 0..shape.len() {
        if shape[dim] == 1 && grad.shape[dim] != 1 {
            grad = Nd::float_sum_dim(grad, dim);
        }
    }
    grad
}

struct Ad;

impl Backend for Ad {
    type FloatTensor = AdTensor;
    type IntTensor = NdInt;
    type BoolTensor = NdBool;
    type Device = ();
    type Scalar = f64;
    type FloatValue = ();

    fn float_shape(tensor: &AdTensor) -> Vec<usize> {
        Nd::float_shape(&tensor.value)
    }
    fn float_dtype(tensor: &AdTensor) -> DType {
        Nd::float_dtype(&tensor.value)
    }
    fn float_clone(tensor: &AdTensor) -> AdTensor {
        tensor.clone()
    }
    fn float_device(_tensor: &AdTensor) {}
    fn is_positive(number: f64) -> bool {
        Nd::is_positive(number)
    }
    fn scalar_negative_infinity() -> f64 {
        Nd::scalar_negative_infinity()
    }
    fn scalar_zero() -> f64 {
        0.0
    }
    fn scalar_inverse_sqrt(n: usize) -> f64 {
        Nd::scalar_inverse_sqrt(n)
    }
    fn scalar_lowest(dtype: DType) -> f64 {
        Nd::scalar_lowest(dtype)
    }
    fn scalar_least_positive(dtype: DType) -> f64 {
        Nd::scalar_least_positive(dtype)
    }
    fn relu(tensor: AdTensor) -> AdTensor {
        let x = tensor.value.clone();
        op(Nd::relu(tensor.value), vec![tensor.node], move |g| {
            vec![zip(g, &x, |g, x| if x > 0.0 { g } else { 0.0 })]
        })
    }
    fn float_add(lhs: AdTensor, rhs: AdTensor) -> AdTensor {
        let (a, b) = (lhs.value.shape.clone(), rhs.value.shape.clone());
        op(Nd::float_add(lhs.value, rhs.value), vec![lhs.node, rhs.node], move |g| {
            vec![unbroadcast(g.clone(), &a), unbroadcast(g.clone(), &b)]
        })
    }
    fn float_mul(lhs: AdTensor, rhs: AdTensor) -> AdTensor {
        let (a, b) = (lhs.value.clone(), rhs.value.clone());
        op(Nd::float_mul(lhs.value, rhs.value), vec![lhs.node, rhs.node], move |g| {
            vec![
                unbroadcast(Nd::float_mul(g.clone(), b.clone()), &a.shape),
                unbroadcast(Nd::float_mul(g.clone(), a.clone()), &b.shape),
            ]
        })
    }
    fn float_mul_scalar(lhs: AdTensor, rhs: f64) -> AdTensor {
        op(Nd::float_mul_scalar(lhs.value, rhs), vec![lhs.node], move |g| {
            vec![Nd::float_mul_scalar(g.clone(), rhs)]
        })
    }
    fn float_matmul(lhs: AdTensor, rhs: AdTensor) -> AdTensor {
        let (a, b) = (lhs.value.clone(), rhs.value.clone());
        op(Nd::float_matmul(lhs.value, rhs.value), vec![lhs.node, rhs.node], move |g| {
            let rank = g.shape.len();
            let (x, y) = (rank - 2, rank - 1);
            vec![
                unbroadcast(
                    Nd::float_matmul(g.clone(), Nd::float_swap_dims(b.clone(), x, y)),
                    &a.shape,
                ),
                unbroadcast(
                    Nd::float_matmul(Nd::float_swap_dims(a.clone(), x, y), g.clone()),
                    &b.shape,
                ),
            ]
        })
    }
    fn float_sum(tensor: AdTensor) -> AdTensor {
        let shape = tensor.value.shape.clone();
        op(Nd::float_sum(tensor.value), vec![tensor.node], move |g| {
            vec![nd(vec![g.data[0]; shape.iter().product()], &shape)]
        })
    }
    fn float_reshape(tensor: AdTensor, shape: Vec<usize>) -> AdTensor {
        let before = tensor.value.shape.clone();
        op(Nd::float_reshape(tensor.value, shape), vec![tensor.node], move |g| {
            vec![Nd::float_reshape(g.clone(), before.clone())]
        })
    }
    fn float_tanh(_tensor: AdTensor) -> AdTensor {
        unreachable!()
    }
    fn float_exp(_tensor: AdTensor) -> AdTensor {
        unreachable!()
    }
    fn float_log(_tensor: AdTensor) -> AdTensor {
        unreachable!()
    }
    fn float_sub(_lhs: AdTensor, _rhs: AdTensor) -> AdTensor {
        unreachable!()
    }
    fn float_div(_lhs: AdTensor, _rhs: AdTensor) -> AdTensor {
        unreachable!()
    }
    fn float_div_scalar(_lhs: AdTensor, _rhs: f64) -> AdTensor {
        unreachable!()
    }
    fn float_clamp_min(_tensor: AdTensor, _min: f64) -> AdTensor {
        unreachable!()
    }
    fn float_swap_dims(_tensor: AdTensor, _a: usize, _b: usize) -> AdTensor {
        unreachable!()
    }
    fn float_sum_dim(_tensor: AdTensor, _dim: usize) -> AdTensor {
        unreachable!()
    }
    fn float_max_dim(_tensor: AdTensor, _dim: usize) -> AdTensor {
        unreachable!()
    }
    fn float_cast(_tensor: AdTensor, _dtype: FloatDType) -> AdTensor {
        unreachable!()
    }
    fn float_slice(_tensor: AdTensor, _ranges: &Vec<(usize, usize)>) -> AdTensor {
        unreachable!()
    }
    fn float_slice_assign(
        _tensor: AdTensor,
        _ranges: &Vec<(usize, usize)>,
        _part: AdTensor,
    ) -> AdTensor {
        unreachable!()
    }
    fn float_mask_fill(_tensor: AdTensor, _mask: NdBool, _number: f64) -> AdTensor {
        unreachable!()
    }
    fn float_full(_s: Vec<usize>, _n: f64, _device: &(), _dtype: FloatDType) -> AdTensor {
        unreachable!()
    }
    fn float_zeros(shape: Vec<usize>, device: &(), dtype: FloatDType) -> AdTensor {
        leaf(Nd::float_zeros(shape, device, dtype))
    }
    fn int_dtype(tensor: &NdInt) -> DType {
        Nd::int_dtype(tensor)
    }
    fn bool_dtype(tensor: &NdBool) -> DType {
        Nd::bool_dtype(tensor)
    }
    fn int_arange(end: usize, device: &()) -> NdInt {
        Nd::int_arange(end, device)
    }
    fn int_reshape(tensor: NdInt, shape: Vec<usize>) -> NdInt {
        Nd::int_reshape(tensor, shape)
    }
    fn int_add_scalar(lhs: NdInt, rhs: i64) -> NdInt {
        Nd::int_add_scalar(lhs, rhs)
    }
    fn int_lower(column: NdInt, row: NdInt) -> NdBool {
        Nd::int_lower(column, row)
    }
    fn bool_reshape(tensor: NdBool, shape: Vec<usize>) -> NdBool {
        Nd::bool_reshape(tensor, shape)
    }
    fn bool_expand(tensor: NdBool, shape: Vec<usize>) -> NdBool {
        Nd::bool_expand(tensor, shape)
    }
}

impl AutodiffBackend for Ad {
    type Inner = Nd;
    type Node = Node;
    type Gradients = Grads;

    fn inner(tensor: &AdTensor) -> Nd32 {
        tensor.value.clone()
    }
    fn from_inner(tensor: Nd32) -> AdTensor {
        leaf(tensor)
    }
    fn require_grad(tensor: AdTensor) -> AdTensor {
        AdTensor { value: tensor.value, node: node_of(vec![], true, None) }
    }
    fn node(tensor: &AdTensor) -> Node {
        tensor.node.clone()
    }
    fn node_requires_grad(node: &Node) -> bool {
        node.0.requires_grad
    }
    fn node_id(node: &Node) -> u64 {
        node.id()
    }
    fn node_order(node: &Node) -> usize {
        node.0.order
    }
    fn from_parents(tensor: Nd32, parents: &Vec<Node>, requires_grad: bool) -> AdTensor {
        AdTensor { value: tensor, node: node_of(parents.clone(), requires_grad, None) }
    }
    fn backward(tensor: AdTensor) -> Grads {
        let mut all = BTreeMap::new();
        collect(&tensor.node, &mut all);
        let mut nodes: Vec<Node> = all.into_values().collect();
        nodes.sort_by_key(|n| (std::cmp::Reverse(n.0.order), n.0.step.borrow().is_some()));
        let mut grads = Grads::new();
        let ones = vec![1.0; tensor.value.data.len()];
        grads.insert(tensor.node.id(), nd(ones, &tensor.value.shape));
        for node in nodes {
            let step = node.0.step.borrow_mut().take();
            if let Some(step) = step {
                grads = step(grads);
            } else if let Some(pull) = &node.0.pull {
                if let Some(grad) = grads.remove(&node.id()) {
                    for (parent, grad) in node.0.parents.iter().zip(pull(&grad)) {
                        if parent.0.requires_grad {
                            add_grad(&mut grads, parent.id(), grad);
                        }
                    }
                }
            }
        }
        grads
    }
    fn grad(tensor: &AdTensor, gradients: &Grads) -> Option<Nd32> {
        gradients.get(&tensor.node.id()).cloned()
    }
    fn take_gradient(gradients: Grads, node: &Node) -> (Grads, Option<Nd32>) {
        let mut gradients = gradients;
        let taken = gradients.remove(&node.id());
        (gradients, taken)
    }
    fn register_gradient(gradients: Grads, id: u64, gradient: Nd32) -> Grads {
        let mut gradients = gradients;
        add_grad(&mut gradients, id, gradient);
        gradients
    }
}

// Registers the step of a checkpointed block on its first output.
fn attach<K: burn_engine::checkpoint::CheckpointBlockSplit<Ad> + 'static>(
    ran: Checkpointed<Ad, K>,
) -> Vec<AdTensor> {
    if let Some(step) = ran.step {
        assert_eq!(step.node(), Some(ran.outputs[0].node.id()));
        assert_eq!(step.depth(), Some(ran.outputs[0].node.0.order));
        *ran.outputs[0].node.0.step.borrow_mut() =
            Some(Box::new(move |grads| step.step(grads).unwrap()));
    }
    ran.outputs
}

fn grad(tensor: &AdTensor, grads: &Grads) -> Vec<f32> {
    to_vec(&Ad::grad(tensor, grads).unwrap())
}

fn assert_close(a: &[f32], b: &[f32]) {
    assert_eq!(a.len(), b.len(), "length mismatch");
    for (x, y) in a.iter().zip(b.iter()) {
        assert!((x - y).abs() < 1e-5, "grad mismatch: {x} vs {y}");
    }
}

fn first(tensors: Vec<AdTensor>) -> AdTensor {
    tensors.into_iter().next().unwrap()
}

// ---- Checkpointed blocks ----

// Squares its input.
struct SquareBlock;

impl CheckpointBlock for SquareBlock {
    fn forward<B: Backend>(&self, inputs: Vec<B::FloatTensor>) -> Vec<B::FloatTensor> {
        let x = inputs.into_iter().next().unwrap();
        vec![B::float_mul(B::float_clone(&x), x)]
    }
}

#[test]
fn spike_nested_fresh_autodiff_in_backward() {
    let x = with_grad(nd(vec![1.0, 2.0, 3.0, 4.0], &[2, 2]));

    // The forward is the identity. On the way back a fresh graph is built from
    // the saved input, run backwards, and its gradient handed on.
    let saved = x.value.clone();
    let out = op(x.value.clone(), vec![x.node.clone()], move |_g| {
        let leaf = Ad::require_grad(Ad::from_inner(saved.clone()));
        let y = Ad::float_mul(leaf.clone(), leaf.clone());
        let loss = Ad::float_sum(y);
        let inner_grads = Ad::backward(loss);
        vec![Ad::grad(&leaf, &inner_grads).expect("inner grad")]
    });
    let grads = Ad::backward(out);
    let dx = Ad::grad(&x, &grads).expect("outer grad");
    // d/dx sum(x^2) = 2x
    assert_eq!(to_vec(&dx), vec![2.0, 4.0, 6.0, 8.0]);

    // A checkpointed block builds such a fresh graph itself.
    let x = with_grad(nd(vec![1.0, 2.0, 3.0, 4.0], &[2, 2]));
    let ran = checkpoint_block::<Ad, _>(vec![x.clone()], vec![], Arc::new(SquareBlock));
    let out = first(attach(ran.ok().unwrap()));
    assert_eq!(to_vec(&out.value), vec![1.0, 4.0, 9.0, 16.0]);
    let grads = Ad::backward(Ad::float_sum(out));
    assert_eq!(grad(&x, &grads), vec![2.0, 4.0, 6.0, 8.0]);
}

// out = relu(x @ w1) @ w2 + adapter.
struct LinearReluBlock;

impl CheckpointBlock for LinearReluBlock {
    fn forward<B: Backend>(&self, inputs: Vec<B::FloatTensor>) -> Vec<B::FloatTensor> {
        let mut it = inputs.into_iter();
        let x = it.next().unwrap();
        let w1 = it.next().unwrap();
        let w2 = it.next().unwrap();
        let adapter = it.next().unwrap();

        let h = B::float_matmul(x, w1);
        let h = B::relu(h);
        let h = B::float_matmul(h, w2);
        let out = B::float_add(h, adapter);
        vec![out]
    }
}

fn linear_relu_leaves() -> (AdTensor, AdTensor, AdTensor, AdTensor) {
    (
        with_grad(nd(vec![0.5, -1.0, 2.0, 0.25], &[2, 2])),
        with_grad(nd(vec![1.0, -2.0, 0.5, 3.0], &[2, 2])),
        with_grad(nd(vec![0.3, 1.2, -0.7, 0.9], &[2, 2])),
        with_grad(nd(vec![0.1, -0.1, 0.2, 0.05], &[2, 2])),
    )
}

fn reference_grads() -> (Vec<f32>, Vec<f32>, Vec<f32>, Vec<f32>) {
    let (x, w1, w2, adapter) = linear_relu_leaves();
    let out = LinearReluBlock
        .forward::<Ad>(vec![x.clone(), w1.clone(), w2.clone(), adapter.clone()]);
    let grads = Ad::backward(Ad::float_sum(first(out)));
    (grad(&x, &grads), grad(&w1, &grads), grad(&w2, &grads), grad(&adapter, &grads))
}

#[test]
fn checkpoint_block_matches_reference_grads() {
    let (ref_x, ref_w1, ref_w2, ref_adapter) = reference_grads();

    let (x, w1, w2, adapter) = linear_relu_leaves();
    let ran = checkpoint_block::<Ad, _>(
        vec![x.clone(), w1.clone(), w2.clone(), adapter.clone()],
        vec![],
        Arc::new(LinearReluBlock),
    );
    let out = first(attach(ran.ok().unwrap()));
    let grads = Ad::backward(Ad::float_sum(out));

    assert_close(&grad(&x, &grads), &ref_x);
    assert_close(&grad(&w1, &grads), &ref_w1);
    assert_close(&grad(&w2, &grads), &ref_w2);
    assert_close(&grad(&adapter, &grads), &ref_adapter);
}

// out0 = relu(a @ b); out1 = a + b.
struct TwoOutputBlock;

impl CheckpointBlock for TwoOutputBlock {
    fn forward<B: Backend>(&self, inputs: Vec<B::FloatTensor>) -> Vec<B::FloatTensor> {
        let mut it = inputs.into_iter();
        let a = it.next().unwrap();
        let b = it.next().unwrap();
        let out0 = B::relu(B::float_matmul(B::float_clone(&a), B::float_clone(&b)));
        let out1 = B::float_add(a, b);
        vec![out0, out1]
    }
}

fn two_output_leaves() -> (AdTensor, AdTensor) {
    (
        with_grad(nd(vec![1.0, -2.0, 0.5, 3.0], &[2, 2])),
        with_grad(nd(vec![0.3, 1.2, -0.7, 0.9], &[2, 2])),
    )
}

fn two_output_loss(outs: Vec<AdTensor>) -> AdTensor {
    let mut it = outs.into_iter();
    let out0 = it.next().unwrap();
    let out1 = it.next().unwrap();
    // The loss uses both outputs with different weights, so both ways matter.
    let l0 = Ad::float_sum(out0);
    let l1 = Ad::float_sum(Ad::float_mul_scalar(out1, 2.0));
    Ad::float_add(l0, l1)
}

#[test]
fn checkpoint_block_multi_output_matches_reference() {
    let (a, b) = two_output_leaves();
    let outs = TwoOutputBlock.forward::<Ad>(vec![a.clone(), b.clone()]);
    let grads = Ad::backward(two_output_loss(outs));
    let (ref_a, ref_b) = (grad(&a, &grads), grad(&b, &grads));

    let (a, b) = two_output_leaves();
    let ran = checkpoint_block::<Ad, _>(
        vec![a.clone(), b.clone()],
        vec![],
        Arc::new(TwoOutputBlock),
    );
    let outs = attach(ran.ok().unwrap());
    let grads = Ad::backward(two_output_loss(outs));

    assert_close(&grad(&a, &grads), &ref_a);
    assert_close(&grad(&b, &grads), &ref_b);
}

// out = (x * c) @ w + adapter, with c the constant.
struct ConstBlock;

impl CheckpointBlock for ConstBlock {
    fn forward<B: Backend>(&self, inputs: Vec<B::FloatTensor>) -> Vec<B::FloatTensor> {
        // inputs = [x, w, adapter, <consts: c>]
        let mut it = inputs.into_iter();
        let x = it.next().unwrap();
        let w = it.next().unwrap();
        let adapter = it.next().unwrap();
        let c = it.next().unwrap();
        let out = B::float_add(B::float_matmul(B::float_mul(x, c), w), adapter);
        vec![out]
    }
}

#[test]
fn checkpoint_block_with_const_matches_reference_and_const_has_no_grad() {
    let x_data = vec![0.5, -1.0, 2.0, 0.25];
    let w_data = vec![1.0, -2.0, 0.5, 3.0];
    let a_data = vec![0.1, -0.1, 0.2, 0.05];
    let c_data = vec![2.0, 0.5, -1.0, 3.0];

    // Reference: the constant as a plain input without a gradient.
    let x = with_grad(nd(x_data.clone(), &[2, 2]));
    let w = with_grad(nd(w_data.clone(), &[2, 2]));
    let adapter = with_grad(nd(a_data.clone(), &[2, 2]));
    let c = leaf(nd(c_data.clone(), &[2, 2]));
    let out = ConstBlock.forward::<Ad>(vec![x.clone(), w.clone(), adapter.clone(), c.clone()]);
    let grads = Ad::backward(Ad::float_sum(first(out)));
    let (rx, rw, ra) = (grad(&x, &grads), grad(&w, &grads), grad(&adapter, &grads));

    // Checkpointed: the constant by its own way.
    let x = with_grad(nd(x_data, &[2, 2]));
    let w = with_grad(nd(w_data, &[2, 2]));
    let adapter = with_grad(nd(a_data, &[2, 2]));
    let c_prim = nd(c_data, &[2, 2]);
    let ran = checkpoint_block::<Ad, _>(
        vec![x.clone(), w.clone(), adapter.clone()],
        vec![c_prim],
        Arc::new(ConstBlock),
    );
    let out = first(attach(ran.ok().unwrap()));
    let grads = Ad::backward(Ad::float_sum(out));

    assert_close(&grad(&x, &grads), &rx);
    assert_close(&grad(&w, &grads), &rw);
    assert_close(&grad(&adapter, &grads), &ra);
    assert!(Ad::grad(&c, &grads).is_none());
}

#[test]
fn untracked_inputs_leave_no_step() {
    let (a, b) = two_output_leaves();
    let ran = checkpoint_block::<Ad, _>(
        vec![leaf(a.value), leaf(b.value)],
        vec![],
        Arc::new(TwoOutputBlock),
    );
    let ran = ran.ok().unwrap();
    assert!(ran.step.is_none());
    assert_eq!(ran.outputs.len(), 2);
    assert!(!ran.outputs[0].node.0.requires_grad);
}

#[test]
fn only_inputs_with_gradients_are_parents() {
    let (a, b) = two_output_leaves();
    let ran = checkpoint_block::<Ad, _>(
        vec![leaf(a.value), b.clone()],
        vec![],
        Arc::new(TwoOutputBlock),
    );
    let step = ran.ok().unwrap().step.unwrap();
    assert_eq!(step.parent_ids(), vec![b.node.id()]);
    assert!(step.parents[0].is_none());
}

#[test]
fn an_output_without_gradient_counts_as_zero() {
    // Only the first output is part of the loss.
    let (a, b) = two_output_leaves();
    let outs = TwoOutputBlock.forward::<Ad>(vec![a.clone(), b.clone()]);
    let grads = Ad::backward(Ad::float_sum(first(outs)));
    let (ref_a, ref_b) = (grad(&a, &grads), grad(&b, &grads));

    let (a, b) = two_output_leaves();
    let ran = checkpoint_block::<Ad, _>(
        vec![a.clone(), b.clone()],
        vec![],
        Arc::new(TwoOutputBlock),
    );
    let grads = Ad::backward(Ad::float_sum(first(attach(ran.ok().unwrap()))));
    assert_close(&grad(&a, &grads), &ref_a);
    assert_close(&grad(&b, &grads), &ref_b);
}

// Has no output at first, and one more each time.
struct FickleBlock {
    runs: Cell<usize>,
    grows: bool,
}

impl CheckpointBlock for FickleBlock {
    fn forward<B: Backend>(&self, inputs: Vec<B::FloatTensor>) -> Vec<B::FloatTensor> {
        let runs = self.runs.get();
        if self.grows {
            self.runs.set(runs + 1);
        }
        (0..runs).map(|_| B::float_clone(&inputs[0])).collect()
    }
}

#[test]
fn a_block_without_outputs_is_refused() {
    let block = Arc::new(FickleBlock { runs: Cell::new(0), grows: false });
    let x = with_grad(nd(vec![1.0], &[1]));
    let ran = checkpoint_block::<Ad, _>(vec![x], vec![], block);
    assert_eq!(ran.err(), Some(CheckpointError::NoOutput));
}

#[test]
fn a_block_with_another_number_of_outputs_is_refused() {
    let block = Arc::new(FickleBlock { runs: Cell::new(1), grows: true });
    let x = with_grad(nd(vec![1.0], &[1]));
    let step = checkpoint_block::<Ad, _>(vec![x], vec![], block).ok().unwrap().step.unwrap();
    assert_eq!(step.step(Grads::new()).err(), Some(CheckpointError::OutputCount));
}

// Gives its input in another shape or type when it runs again.
struct ReshapingBlock {
    again: Cell<bool>,
}

impl CheckpointBlock for ReshapingBlock {
    fn forward<B: Backend>(&self, inputs: Vec<B::FloatTensor>) -> Vec<B::FloatTensor> {
        let x = inputs.into_iter().next().unwrap();
        if self.again.replace(true) { vec![B::float_reshape(x, vec![4, 1])] } else { vec![x] }
    }
}

#[test]
fn a_gradient_of_another_shape_is_refused() {
    let x = with_grad(nd(vec![1.0, 2.0, 3.0, 4.0], &[2, 2]));
    let block = Arc::new(ReshapingBlock { again: Cell::new(false) });
    let ran = checkpoint_block::<Ad, _>(vec![x], vec![], block).ok().unwrap();
    let mut grads = Grads::new();
    grads.insert(ran.outputs[0].node.id(), nd(vec![1.0; 4], &[2, 2]));
    assert_eq!(ran.step.unwrap().step(grads).err(), Some(CheckpointError::ShapeMismatch));
}

#[test]
fn a_gradient_is_repeated_where_needed() {
    let x = with_grad(nd(vec![1.0, 2.0, 3.0, 4.0], &[2, 2]));
    let block = Arc::new(FickleBlock { runs: Cell::new(1), grows: false });
    let ran = checkpoint_block::<Ad, _>(vec![x.clone()], vec![], block).ok().unwrap();
    let mut grads = Grads::new();
    grads.insert(ran.outputs[0].node.id(), nd(vec![5.0, 7.0], &[1, 2]));
    let grads = ran.step.unwrap().step(grads).ok().unwrap();
    assert_eq!(grads[&x.node.id()].shape, vec![2, 2]);
    assert_eq!(to_vec(&grads[&x.node.id()]), vec![5.0, 7.0, 5.0, 7.0]);
}

#[test]
fn an_output_that_is_no_float_is_refused() {
    let quantized = Nd32 { dtype: DType::QFloat(0), ..nd(vec![1.0], &[1]) };
    let block = Arc::new(FickleBlock { runs: Cell::new(1), grows: false });
    let step =
        checkpoint_block::<Ad, _>(vec![with_grad(quantized)], vec![], block).ok().unwrap().step;
    assert_eq!(step.unwrap().step(Grads::new()).err(), Some(CheckpointError::NotFloat));
}

// ---- Blocks over tensors of a backend known at run time ----

type Dispatch = DispatchTensor<Ad>;

fn plain(value: Nd32) -> Dispatch {
    DispatchTensor {
        kind: DispatchTensorKind::Plain(BackendTag::NdArray, BackendTensor::Float(value)),
        checkpointing: None,
    }
}

fn marked(tensor: AdTensor) -> Dispatch {
    DispatchTensor {
        kind: DispatchTensorKind::Autodiff(Box::new(DispatchTensorKind::Plain(
            BackendTag::NdArray,
            BackendTensor::Autodiff(tensor),
        ))),
        checkpointing: Some(CheckpointingStrategy::Balanced),
    }
}

fn apply2(
    a: Dispatch,
    b: Dispatch,
    on_plain: fn(Nd32, Nd32) -> Nd32,
    on_marked: fn(AdTensor, AdTensor) -> AdTensor,
) -> Dispatch {
    match (a.kind, b.kind) {
        (
            DispatchTensorKind::Plain(_, BackendTensor::Float(a)),
            DispatchTensorKind::Plain(_, BackendTensor::Float(b)),
        ) => plain(on_plain(a, b)),
        (DispatchTensorKind::Autodiff(a), DispatchTensorKind::Autodiff(b)) => match (*a, *b) {
            (
                DispatchTensorKind::Plain(_, BackendTensor::Autodiff(a)),
                DispatchTensorKind::Plain(_, BackendTensor::Autodiff(b)),
            ) => marked(on_marked(a, b)),
            _ => panic!("not a tensor of a graph"),
        },
        _ => panic!("not on the same backend"),
    }
}

type Matrix = Tensor<2, Float, Dispatch>;

fn matmul(a: Matrix, b: Matrix) -> Matrix {
    let out = apply2(a.into_primitive(), b.into_primitive(), Nd::float_matmul, Ad::float_matmul);
    Tensor::from_primitive(out)
}

fn plus(a: Matrix, b: Matrix) -> Matrix {
    let out = apply2(a.into_primitive(), b.into_primitive(), Nd::float_add, Ad::float_add);
    Tensor::from_primitive(out)
}

fn times(a: Matrix, b: Matrix) -> Matrix {
    let out = apply2(a.into_primitive(), b.into_primitive(), Nd::float_mul, Ad::float_mul);
    Tensor::from_primitive(out)
}

fn relu(a: Matrix) -> Matrix {
    let out = match a.into_primitive().kind {
        DispatchTensorKind::Plain(_, BackendTensor::Float(a)) => plain(Nd::relu(a)),
        DispatchTensorKind::Autodiff(a) => match *a {
            DispatchTensorKind::Plain(_, BackendTensor::Autodiff(a)) => marked(Ad::relu(a)),
            _ => panic!("not a tensor of a graph"),
        },
        _ => panic!("not a float tensor"),
    };
    Tensor::from_primitive(out)
}

// out = relu(x @ w1) @ w2 + adapter.
fn block(inputs: Vec<Dispatch>) -> Vec<Dispatch> {
    let mut it = inputs.into_iter();
    let x = Tensor::from_primitive(it.next().unwrap());
    let w1 = Tensor::from_primitive(it.next().unwrap());
    let w2 = Tensor::from_primitive(it.next().unwrap());
    let adapter = Tensor::from_primitive(it.next().unwrap());

    let h = relu(matmul(x, w1));
    let out = plus(matmul(h, w2), adapter);
    vec![out.into_primitive()]
}

fn attach_dispatched<F: Fn(Vec<Dispatch>) -> Vec<Dispatch> + 'static>(
    inputs: Vec<Dispatch>,
    consts: Vec<Dispatch>,
    block: F,
) -> Vec<Dispatch> {
    let ran = checkpoint::<Ad, F>(inputs, consts, block).ok().unwrap();
    if let Some(step) = ran.step {
        let owner = as_marked(&ran.outputs[0]).node;
        assert_eq!(step.node(), Some(owner.id()));
        *owner.0.step.borrow_mut() = Some(Box::new(move |grads| step.step(grads).unwrap()));
    }
    ran.outputs
}

fn as_marked(tensor: &Dispatch) -> AdTensor {
    match &tensor.kind {
        DispatchTensorKind::Autodiff(inner) => match &**inner {
            DispatchTensorKind::Plain(_, BackendTensor::Autodiff(t)) => t.clone(),
            _ => panic!("not a tensor of a graph"),
        },
        _ => panic!("not a tensor of a graph"),
    }
}

fn as_plain(tensor: &Dispatch) -> Nd32 {
    match &tensor.kind {
        DispatchTensorKind::Plain(_, BackendTensor::Float(t)) => t.clone(),
        _ => panic!("not a plain float tensor"),
    }
}

#[test]
fn high_level_checkpoint_matches_reference_grads() {
    // Reference: the block run directly.
    let (x, w1, w2, adapter) = linear_relu_leaves();
    let out = block(vec![
        marked(x.clone()),
        marked(w1.clone()),
        marked(w2.clone()),
        marked(adapter.clone()),
    ]);
    let grads = Ad::backward(Ad::float_sum(as_marked(&out[0])));
    let (rx, rw1, rw2, ra) =
        (grad(&x, &grads), grad(&w1, &grads), grad(&w2, &grads), grad(&adapter, &grads));

    // Checkpointed.
    let (x, w1, w2, adapter) = linear_relu_leaves();
    let outputs = attach_dispatched(
        vec![
            marked(x.clone()),
            marked(w1.clone()),
            marked(w2.clone()),
            marked(adapter.clone()),
        ],
        vec![],
        block,
    );
    assert_eq!(outputs[0].checkpointing, Some(CheckpointingStrategy::Balanced));
    let grads = Ad::backward(Ad::float_sum(as_marked(&outputs[0])));

    assert_close(&grad(&x, &grads), &rx);
    assert_close(&grad(&w1, &grads), &rw1);
    assert_close(&grad(&w2, &grads), &rw2);
    assert_close(&grad(&adapter, &grads), &ra);
}

#[test]
fn high_level_checkpoint_stack_matches_reference() {
    let run_stack = |checkpointed: bool| {
        let (x, w1, w2, adapter) = linear_relu_leaves();
        let run = |inputs: Vec<Dispatch>| {
            if checkpointed { attach_dispatched(inputs, vec![], block) } else { block(inputs) }
        };
        let out0 = run(vec![
            marked(x.clone()),
            marked(w1.clone()),
            marked(w2.clone()),
            marked(adapter.clone()),
        ]);
        let h = out0.into_iter().next().unwrap();
        // The second block uses the same leaves again.
        let out1 = run(vec![
            h,
            marked(w1.clone()),
            marked(w2.clone()),
            marked(adapter.clone()),
        ]);
        let grads = Ad::backward(Ad::float_sum(as_marked(&out1[0])));
        (grad(&x, &grads), grad(&w1, &grads), grad(&w2, &grads), grad(&adapter, &grads))
    };

    let (rx, rw1, rw2, ra) = run_stack(false);
    let (cx, cw1, cw2, ca) = run_stack(true);
    assert_close(&cx, &rx);
    assert_close(&cw1, &rw1);
    assert_close(&cw2, &rw2);
    assert_close(&ca, &ra);
}

#[test]
fn high_level_checkpoint_bypasses_when_not_tracked() {
    let inputs = || {
        vec![
            plain(nd(vec![0.5, -1.0, 2.0, 0.25], &[2, 2])),
            plain(nd(vec![1.0, -2.0, 0.5, 3.0], &[2, 2])),
            plain(nd(vec![0.3, 1.2, -0.7, 0.9], &[2, 2])),
            plain(nd(vec![0.1, -0.1, 0.2, 0.05], &[2, 2])),
        ]
    };
    let direct = as_plain(&block(inputs())[0]);
    let ran = checkpoint::<Ad, _>(inputs(), vec![], block).ok().unwrap();
    assert!(ran.step.is_none());
    assert_close(&to_vec(&as_plain(&ran.outputs[0])), &to_vec(&direct));
}

#[test]
fn high_level_checkpoint_with_captured_const_matches_reference() {
    // The constant is made where the graph is.
    let c = marked(leaf(nd(vec![2.0, 0.5, -1.0, 3.0], &[2, 2])));
    // The block splits its inputs as [x, w, adapter, c].
    let const_block = |inputs: Vec<Dispatch>| -> Vec<Dispatch> {
        let mut it = inputs.into_iter();
        let x = Tensor::from_primitive(it.next().unwrap());
        let w = Tensor::from_primitive(it.next().unwrap());
        let adapter = Tensor::from_primitive(it.next().unwrap());
        let c = Tensor::from_primitive(it.next().unwrap());
        let out = plus(matmul(times(x, c), w), adapter);
        vec![out.into_primitive()]
    };
    let mk = || {
        (
            with_grad(nd(vec![0.5, -1.0, 2.0, 0.25], &[2, 2])),
            with_grad(nd(vec![1.0, -2.0, 0.5, 3.0], &[2, 2])),
            with_grad(nd(vec![0.1, -0.1, 0.2, 0.05], &[2, 2])),
        )
    };

    // Reference: the block run directly.
    let (x, w, adapter) = mk();
    let out = const_block(vec![
        marked(x.clone()),
        marked(w.clone()),
        marked(adapter.clone()),
        marked(as_marked(&c)),
    ]);
    let grads = Ad::backward(Ad::float_sum(as_marked(&out[0])));
    let (rx, rw, ra) = (grad(&x, &grads), grad(&w, &grads), grad(&adapter, &grads));

    // Checkpointed, with the constant by its own way.
    let (x, w, adapter) = mk();
    let outputs = attach_dispatched(
        vec![marked(x.clone()), marked(w.clone()), marked(adapter.clone())],
        vec![c],
        const_block,
    );
    let grads = Ad::backward(Ad::float_sum(as_marked(&outputs[0])));

    assert_close(&grad(&x, &grads), &rx);
    assert_close(&grad(&w, &grads), &rw);
    assert_close(&grad(&adapter, &grads), &ra);
}

#[test]
#[should_panic(expected = "not on the same backend")]
fn high_level_checkpoint_captured_autodiff_const_panics() {
    let c = leaf(nd(vec![2.0, 0.5, -1.0, 3.0], &[2, 2]));
    // The constant is captured instead of handed in: it takes part in a graph
    // when the inputs do not.
    let buggy_block = move |inputs: Vec<Dispatch>| -> Vec<Dispatch> {
        let mut it = inputs.into_iter();
        let x = Tensor::from_primitive(it.next().unwrap());
        let w = Tensor::from_primitive(it.next().unwrap());
        let adapter = Tensor::from_primitive(it.next().unwrap());
        let c = Tensor::from_primitive(marked(c.clone()));
        let out = plus(matmul(times(x, c), w), adapter);
        vec![out.into_primitive()]
    };
    let x = with_grad(nd(vec![0.5, -1.0, 2.0, 0.25], &[2, 2]));
    let w = with_grad(nd(vec![1.0, -2.0, 0.5, 3.0], &[2, 2]));
    let adapter = with_grad(nd(vec![0.1, -0.1, 0.2, 0.05], &[2, 2]));
    let _ = checkpoint::<Ad, _>(
        vec![marked(x), marked(w), marked(adapter)],
        vec![],
        buggy_block,
    );
}

#[test]
fn dispatch_tensors_tell_their_data_type() {
    assert_eq!(plain(nd(vec![1.0], &[1])).dtype(), DType::F32);
    assert_eq!(marked(leaf(nd(vec![1.0], &[1]))).dtype(), DType::F32);
    let int: Dispatch = DispatchTensor {
        kind: DispatchTensorKind::Plain(
            BackendTag::Cpu,
            BackendTensor::Int(NdInt { shape: vec![1], data: vec![3] }),
        ),
        checkpointing: None,
    };
    assert_eq!(int.dtype(), DType::I64);
    let boolean: Dispatch = DispatchTensor {
        kind: DispatchTensorKind::Plain(
            BackendTag::Cpu,
            BackendTensor::Bool(NdBool { shape: vec![1], data: vec![true] }),
        ),
        checkpointing: None,
    };
    assert_eq!(boolean.dtype(), DType::Bool(BoolStore::Native));
}

#[test]
fn dispatch_block_is_named_by_its_backend() {
    // What the block is handed is on the backend that it is named by, without a
    // graph or with one, the constants after the inputs.
    let seen: RefCell<Vec<(bool, Option<CheckpointingStrategy>)>> = RefCell::new(vec![]);
    let note = |inputs: Vec<Dispatch>| -> Vec<Dispatch> {
        assert_eq!(inputs.len(), 2);
        for tensor in &inputs {
            let (tag, graph) = match &tensor.kind {
                DispatchTensorKind::Plain(tag, _) => (*tag, false),
                DispatchTensorKind::Autodiff(inner) => match &**inner {
                    DispatchTensorKind::Plain(tag, _) => (*tag, true),
                    DispatchTensorKind::Autodiff(_) => panic!("a graph within a graph"),
                },
            };
            assert_eq!(tag, BackendTag::Cuda);
            seen.borrow_mut().push((graph, tensor.checkpointing));
        }
        inputs
    };
    let strategy = Some(CheckpointingStrategy::Balanced);
    let adapter = DispatchBlock { block: note, tag: BackendTag::Cuda, checkpointing: strategy };
    let (x, c) = (nd(vec![1.0, 2.0], &[2]), nd(vec![3.0], &[1]));
    let plain =
        CheckpointBlockSplit::<Ad>::forward_inner(&adapter, vec![x.clone()], vec![c.clone()]);
    assert_eq!(plain, vec![x.clone(), c.clone()]);
    let with_graph = CheckpointBlockSplit::<Ad>::forward_autodiff(
        &adapter,
        vec![leaf(x.clone())],
        vec![leaf(c.clone())],
    );
    assert_eq!(with_graph[0].value, x);
    assert_eq!(with_graph[1].value, c);
    let seen = seen.borrow();
    assert_eq!(*seen, vec![(false, None), (false, None), (true, strategy), (true, strategy)]);
}

// ---- Linear projections ----

fn max_abs_err(a: &[f32], b: &[f32]) -> f32 {
    a.iter().zip(b.iter()).map(|(x, y)| (x - y).abs()).fold(0.0f32, f32::max)
}

// The mixed projection as an operation of the graph; the weight is frozen.
fn mixed(input: AdTensor, weight: &Nd32) -> AdTensor {
    let w = weight.clone();
    op(mixed_linear::<Nd>(input.value, weight.clone()), vec![input.node], move |g| {
        vec![mixed_linear_backward::<Nd>(g.clone(), w.clone())]
    })
}

fn full_precision(input: AdTensor, weight: &Nd32) -> AdTensor {
    linear::<Ad>(input, leaf(weight.clone()))
}

#[test]
fn mixed_linear_rank3_matches_linear_and_grad_stays_f32() {
    // input [batch=2, tokens=8, in=3], weight [in=3, out=4]; deterministic values.
    let input_vals: Vec<f32> = (0..48).map(|i| ((i as f32) * 0.13 - 1.7).sin() * 0.6).collect();
    let w_vals: Vec<f32> = (0..12).map(|i| ((i as f32) * 0.29 + 0.4).cos() * 0.5).collect();
    let w = nd(w_vals, &[3, 4]);

    // Products in bf16.
    let input = with_grad(nd(input_vals.clone(), &[2, 8, 3]));
    let out = mixed(input.clone(), &w);
    assert_eq!(out.value.shape, vec![2, 8, 4]);
    let out_vals = to_vec(&out.value);
    let grads = Ad::backward(Ad::float_sum(out));
    let gradient = Ad::grad(&input, &grads).unwrap();

    assert_eq!(gradient.dtype, DType::F32, "rank-3 mixed_linear leaked a non-f32 gradient");

    // The same projection in f32.
    let input_ref = with_grad(nd(input_vals, &[2, 8, 3]));
    let out_ref = full_precision(input_ref.clone(), &w);
    let out_ref_vals = to_vec(&out_ref.value);
    let grads_ref = Ad::backward(Ad::float_sum(out_ref));
    let grad_ref = Ad::grad(&input_ref, &grads_ref).unwrap();

    let fwd_err = max_abs_err(&out_vals, &out_ref_vals);
    assert!(fwd_err < 5e-2, "rank-3 forward vs linear max_abs_err {fwd_err} exceeds bf16 tolerance");
    let grad_err = max_abs_err(&to_vec(&gradient), &to_vec(&grad_ref));
    assert!(grad_err < 5e-2, "rank-3 input-grad vs linear max_abs_err {grad_err} exceeds bf16 tolerance");
    // The products really are rounded.
    assert!(fwd_err > 0.0);
}

#[test]
fn mixed_linear_grad_stays_f32_and_matches_reference() {
    let input_data = vec![0.5f32, -0.25, 1.0, 0.1, 0.3, -0.7]; // [2, 3]
    let w1 = nd(vec![0.2f32, -0.1, 0.4, 0.3, -0.2, 0.5], &[3, 2]);
    let w2 = nd(vec![0.7f32, 0.1, -0.3, 0.2, -0.5, 0.4], &[2, 3]);

    let input = with_grad(nd(input_data.clone(), &[2, 3]));
    let out = mixed(mixed(input.clone(), &w1), &w2);
    let grads = Ad::backward(Ad::float_sum(out));
    let gradient = Ad::grad(&input, &grads).unwrap();

    // The gradient must be f32, never a bf16 tensor of the graph.
    assert_eq!(
        gradient.dtype,
        DType::F32,
        "mixed_linear leaked a non-f32 gradient ({:?})",
        gradient.dtype
    );

    // The same products in f32.
    let input_ref = with_grad(nd(input_data, &[2, 3]));
    let out_ref = Ad::float_matmul(
        Ad::float_matmul(input_ref.clone(), leaf(w1)),
        leaf(w2),
    );
    let grads_ref = Ad::backward(Ad::float_sum(out_ref));
    let grad_ref = Ad::grad(&input_ref, &grads_ref).unwrap();

    let max_abs_err = max_abs_err(&to_vec(&gradient), &to_vec(&grad_ref));
    assert!(
        max_abs_err < 5e-2,
        "mixed_linear input-grad vs f32 reference max_abs_err {max_abs_err} exceeds bf16 tolerance"
    );
}

// Runs the blocks one after the other on the input, those with a flag
// checkpointed.
fn chained(flags: [bool; 3]) -> (Vec<f32>, Vec<f32>) {
    let x = with_grad(nd(vec![0.5, -1.0, 0.75, 1.25], &[2, 2]));
    let w = with_grad(nd(vec![1.0, -0.5, 0.5, 0.75], &[2, 2]));
    let mut out = x.clone();
    for flag in flags {
        let inputs = vec![out, w.clone(), w.clone(), x.clone()];
        out = if flag {
            let ran = checkpoint_block::<Ad, _>(inputs, vec![], Arc::new(LinearReluBlock));
            first(attach(ran.ok().unwrap()))
        } else {
            first(LinearReluBlock.forward::<Ad>(inputs))
        };
    }
    let grads = Ad::backward(Ad::float_sum(Ad::float_mul(out.clone(), out)));
    (grad(&x, &grads), grad(&w, &grads))
}

#[test]
fn gradients_are_the_same_whichever_blocks_are_checkpointed() {
    let (x, w) = chained([false; 3]);
    assert!(x.iter().chain(w.iter()).any(|g| g.abs() > 0.1));
    for flags in 1..8 {
        let (got_x, got_w) = chained([flags & 1 > 0, flags & 2 > 0, flags & 4 > 0]);
        assert_close(&got_x, &x);
        assert_close(&got_w, &w);
    }
}

// ---- Attention ----

fn ramp(len: usize, step: f32) -> Vec<f32> {
    (0..len).map(|i| ((i as f32) * step).sin()).collect()
}

struct Heads {
    b: usize,
    h: usize,
    q: usize,
    k: usize,
    d: usize,
    v: usize,
}

impl Heads {
    fn tensors(&self) -> (Nd32, Nd32, Nd32) {
        (
            nd(ramp(self.b * self.h * self.q * self.d, 0.37), &[self.b, self.h, self.q, self.d]),
            nd(ramp(self.b * self.h * self.k * self.d, 0.53), &[self.b, self.h, self.k, self.d]),
            nd(ramp(self.b * self.h * self.k * self.v, 0.71), &[self.b, self.h, self.k, self.v]),
        )
    }
}

// Attention by its definition, one number at a time.
fn by_definition(
    shape: &Heads,
    scores: impl Fn(usize, usize, usize, usize) -> f64,
    value: &Nd32,
) -> Vec<f32> {
    let mut out = vec![];
    for b in 0..shape.b {
        for h in 0..shape.h {
            for q in 0..shape.q {
                let row: Vec<f64> = (0..shape.k).map(|k| scores(b, h, q, k)).collect();
                let max = row.iter().cloned().fold(f64::NEG_INFINITY, f64::max);
                let exps: Vec<f64> = row
                    .iter()
                    .map(|s| if max == f64::NEG_INFINITY { 0.0 } else { (s - max).exp() })
                    .collect();
                let sum: f64 = exps.iter().sum();
                for v in 0..shape.v {
                    let weighted: f64 = (0..shape.k)
                        .map(|k| {
                            let x = value.data[((b * shape.h + h) * shape.k + k) * shape.v + v];
                            if sum == 0.0 { 0.0 } else { exps[k] / sum * x as f64 }
                        })
                        .sum();
                    out.push(weighted as f32);
                }
            }
        }
    }
    out
}

fn dot(shape: &Heads, query: &Nd32, key: &Nd32, at: (usize, usize, usize, usize)) -> f64 {
    let (b, h, q, k) = at;
    (0..shape.d)
        .map(|d| {
            let x = query.data[((b * shape.h + h) * shape.q + q) * shape.d + d] as f64;
            let y = key.data[((b * shape.h + h) * shape.k + k) * shape.d + d] as f64;
            x * y
        })
        .sum()
}

fn plain_options() -> AttentionModuleOptions<f64> {
    AttentionModuleOptions { scale: None, softcap: None, is_causal: false }
}

const SMALL: Heads = Heads { b: 2, h: 2, q: 3, k: 5, d: 4, v: 2 };

#[test]
fn attention_follows_its_definition() {
    let (query, key, value) = SMALL.tensors();
    let expected = by_definition(
        &SMALL,
        |b, h, q, k| dot(&SMALL, &query, &key, (b, h, q, k)) * 0.5,
        &value,
    );
    let out = attention_fallback::<Nd>(
        query.clone(),
        key.clone(),
        value.clone(),
        None,
        None,
        plain_options(),
    );
    assert_eq!(out.shape, vec![2, 2, 3, 2]);
    assert_close(&to_vec(&out), &expected);
}

#[test]
fn shared_keys_are_repeated_for_all_heads() {
    // One head of keys and values for two heads of queries.
    let (query, _, _) = SMALL.tensors();
    let key = nd(ramp(2 * 5 * 4, 0.53), &[2, 1, 5, 4]);
    let value = nd(ramp(2 * 5 * 2, 0.71), &[2, 1, 5, 2]);
    let twice = |t: &Nd32| {
        let half = t.data.len() / 2;
        let (first, second) = (&t.data[..half], &t.data[half..]);
        let all = [first, first, second, second].concat();
        nd(all, &[t.shape[0], 2, t.shape[2], t.shape[3]])
    };
    let run = |key: &Nd32, value: &Nd32| {
        attention_fallback::<Nd>(
            query.clone(),
            key.clone(),
            value.clone(),
            None,
            None,
            plain_options(),
        )
    };
    let shared = run(&key, &value);
    assert_eq!(shared.shape, vec![2, 2, 3, 2]);
    assert_close(&to_vec(&shared), &to_vec(&run(&twice(&key), &twice(&value))));
}

#[test]
fn a_bias_may_repeat_the_scores() {
    // One batch of queries and keys, two of biases and values.
    let one = Heads { b: 1, ..SMALL };
    let (query, key, _) = one.tensors();
    let (_, _, value) = SMALL.tensors();
    let bias = nd(ramp(60, 0.9), &[2, 2, 3, 5]);
    let twice = |t: &Nd32| {
        let all = [&t.data[..], &t.data[..]].concat();
        nd(all, &[2, t.shape[1], t.shape[2], t.shape[3]])
    };
    let run = |query: Nd32, key: Nd32| {
        let bias = Some(bias.clone());
        attention_fallback::<Nd>(query, key, value.clone(), None, bias, plain_options())
    };
    let repeated = run(query.clone(), key.clone());
    assert_eq!(repeated.shape, vec![2, 2, 3, 2]);
    assert_close(&to_vec(&repeated), &to_vec(&run(twice(&query), twice(&key))));
}

#[test]
fn hidden_keys_do_not_matter() {
    let (query, key, value) = SMALL.tensors();
    // The last key is hidden from every query.
    let mask = || NdBool { shape: vec![1, 1, 1, 5], data: vec![false, false, false, false, true] };
    let changed = |t: &Nd32| {
        let row = t.shape[3];
        let data = t.data.iter().enumerate();
        let data = data.map(|(i, x)| if (i / row) % 5 == 4 { x * 3.0 - 7.0 } else { *x });
        nd(data.collect(), &t.shape)
    };
    let run = |key: Nd32, value: Nd32| {
        attention_fallback::<Nd>(query.clone(), key, value, Some(mask()), None, plain_options())
    };
    let before = run(key.clone(), value.clone());
    let after = run(changed(&key), changed(&value));
    assert_eq!(to_vec(&before), to_vec(&after));
    // Without a scale it is one over the square root of the features.
    let scaled = AttentionModuleOptions { scale: Some(0.5), softcap: None, is_causal: false };
    let given = attention_fallback::<Nd>(query.clone(), key, value, Some(mask()), None, scaled);
    assert_close(&to_vec(&before), &to_vec(&given));
}

#[test]
fn later_keys_do_not_matter() {
    let (query, key, value) = SMALL.tensors();
    let causal = || AttentionModuleOptions { is_causal: true, ..plain_options() };
    // The last key, which only the last query does not come before.
    let changed = |t: &Nd32| {
        let row = t.shape[3];
        let data = t.data.iter().enumerate();
        let data = data.map(|(i, x)| if (i / row) % 5 == 4 { x * 3.0 - 7.0 } else { *x });
        nd(data.collect(), &t.shape)
    };
    let run = |query: &Nd32, key: Nd32, value: Nd32| {
        to_vec(&attention_fallback::<Nd>(query.clone(), key, value, None, None, causal()))
    };
    let before = run(&query, key.clone(), value.clone());
    let after = run(&query, changed(&key), changed(&value));
    for (row, (a, b)) in before.chunks(2).zip(after.chunks(2)).enumerate() {
        assert_eq!(a == b, row % 3 < 2, "query {row}");
    }
    // A last query of zeros has the same scores with every key.
    let row = query.shape[3];
    let data = query.data.iter().enumerate();
    let data = data.map(|(i, x)| if (i / row) % 3 == 2 { 0.0 } else { *x });
    let blind = nd(data.collect(), &query.shape);
    let before = run(&blind, key.clone(), value.clone());
    assert_eq!(before, run(&blind, changed(&key), value.clone()));
    // Without the causal mask the key matters.
    let seen = attention_fallback::<Nd>(blind, changed(&key), value, None, None, plain_options());
    assert_ne!(before, to_vec(&seen));
}

#[test]
fn an_empty_batch_has_empty_gradients() {
    let empty = Heads { b: 0, h: 1, q: 3, k: 1030, d: 4, v: 2 };
    let blocked = backward(&empty, false, 1, true);
    assert_eq!(blocked.query.shape, vec![0, 1, 3, 4]);
    assert_eq!(blocked.key.shape, vec![0, 1, 1030, 4]);
    assert_eq!(blocked.value.shape, vec![0, 1, 1030, 2]);
}

#[test]
fn attention_options_follow_their_definition() {
    let (query, key, value) = SMALL.tensors();
    let mask_data: Vec<bool> = (0..60).map(|i| i % 7 == 3).collect();
    let bias_data = ramp(60, 0.9);
    let expected = by_definition(
        &SMALL,
        |b, h, q, k| {
            let flat = ((b * 2 + h) * 3 + q) * 5 + k;
            let score = dot(&SMALL, &query, &key, (b, h, q, k)) * 0.25;
            let capped = 2.0 * (score / 2.0).tanh();
            // The last query stands at the last key.
            if mask_data[flat] || k > q + 2 {
                f64::NEG_INFINITY
            } else {
                capped + bias_data[flat] as f64
            }
        },
        &value,
    );
    let out = attention_fallback::<Nd>(
        query.clone(),
        key.clone(),
        value.clone(),
        Some(NdBool { shape: vec![2, 2, 3, 5], data: mask_data.clone() }),
        Some(nd(bias_data.clone(), &[2, 2, 3, 5])),
        AttentionModuleOptions { scale: Some(0.25), softcap: Some(2.0), is_causal: true },
    );
    assert_close(&to_vec(&out), &expected);
}

#[test]
fn attention_gives_zero_where_everything_is_masked() {
    let (query, key, value) = SMALL.tensors();
    // Every key is masked for the first query; the mask is repeated.
    let mask = NdBool { shape: vec![1, 1, 3, 1], data: vec![true, false, false] };
    let out = attention_fallback::<Nd>(query, key, value, Some(mask), None, plain_options());
    for b in 0..4 {
        assert_eq!(out.data[b * 6], 0.0);
        assert_eq!(out.data[b * 6 + 1], 0.0);
    }
    assert!(out.data.iter().all(|x| x.is_finite()));
}

fn backward(
    shape: &Heads,
    is_causal: bool,
    dense_max_score_elems: u64,
    blocked_bf16: bool,
) -> AttentionGradients<Nd32> {
    let (query, key, value) = shape.tensors();
    let options = || AttentionModuleOptions { scale: None, softcap: None, is_causal };
    let out = attention_fallback::<Nd>(
        query.clone(),
        key.clone(),
        value.clone(),
        None,
        None,
        options(),
    );
    let grad_out = nd(ramp(shape.b * shape.h * shape.q * shape.v, 1.3), &out.shape);
    attention_backward_fallback::<Nd>(
        query,
        key,
        value,
        out,
        grad_out,
        None,
        None,
        options(),
        AttentionBackwardConfig { dense_max_score_elems, blocked_bf16 },
    )
}

// The slope of the loss along one number of one operand.
fn slope(shape: &Heads, operand: usize, at: usize) -> f32 {
    let loss = |delta: f32| {
        let (query, key, value) = shape.tensors();
        let mut operands = [query, key, value];
        let mut data = operands[operand].data.to_vec();
        data[at] += delta;
        operands[operand] = nd(data, &operands[operand].shape.clone());
        let [query, key, value] = operands;
        let out = attention_fallback::<Nd>(query, key, value, None, None, plain_options());
        let weights = ramp(shape.b * shape.h * shape.q * shape.v, 1.3);
        out.data.iter().zip(weights).map(|(x, w)| *x as f64 * w as f64).sum::<f64>()
    };
    ((loss(1e-2) - loss(-1e-2)) / 2e-2) as f32
}

#[test]
fn dense_gradients_match_slopes() {
    let grads = backward(&SMALL, false, u64::MAX, true);
    for (operand, grad) in [&grads.query, &grads.key, &grads.value].iter().enumerate() {
        assert_eq!(grad.dtype, DType::F32);
        for at in [0, 7, grad.data.len() - 1] {
            assert!((grad.data[at] - slope(&SMALL, operand, at)).abs() < 1e-3);
        }
    }
}

#[test]
fn blocked_gradients_match_dense_ones() {
    // More keys than one block holds.
    let long = Heads { b: 1, h: 1, q: 3, k: 1030, d: 4, v: 2 };
    let dense = backward(&long, false, u64::MAX, false);
    let blocked = backward(&long, false, 1, false);
    assert_close(&to_vec(&blocked.query), &to_vec(&dense.query));
    assert_close(&to_vec(&blocked.key), &to_vec(&dense.key));
    assert_close(&to_vec(&blocked.value), &to_vec(&dense.value));

    let mixed = backward(&long, false, 1, true);
    assert_eq!(mixed.query.dtype, DType::F32);
    assert!(max_abs_err(&to_vec(&mixed.query), &to_vec(&dense.query)) < 5e-2);
    assert!(max_abs_err(&to_vec(&mixed.key), &to_vec(&dense.key)) < 5e-2);
    assert!(max_abs_err(&to_vec(&mixed.value), &to_vec(&dense.value)) < 5e-2);
}

#[test]
fn causal_gradients_ignore_later_keys() {
    let square = Heads { b: 1, h: 1, q: 3, k: 3, d: 2, v: 2 };
    // A causal attention is never computed block by block, whatever the limit.
    let grads = backward(&square, true, 1, true);
    let again = backward(&square, true, u64::MAX, true);
    assert_eq!(to_vec(&grads.query), to_vec(&again.query));
    // The first query sees the first key alone, so its weight is constant.
    assert_close(&grads.query.data[0..2], &[0.0, 0.0]);
}

#[test]
fn backward_settings() {
    let config = AttentionBackwardConfig::from_settings(None, None);
    assert_eq!(config.dense_max_score_elems, 40_000_000);
    assert!(config.blocked_bf16);
    let config = AttentionBackwardConfig::from_settings(Some("123"), Some("0"));
    assert_eq!(config.dense_max_score_elems, 123);
    assert!(!config.blocked_bf16);
    let config = AttentionBackwardConfig::from_settings(Some("0"), Some("1"));
    assert_eq!(config.dense_max_score_elems, 40_000_000);
    assert!(config.blocked_bf16);
}
