//! Tensor shapes and how operations combine them.

use vstd::prelude::*;

verus! {

/// The number of elements of a tensor with this shape.
pub open spec fn num_elements(shape: Seq<usize>) -> int
    decreases shape.len(),
{
    if shape.len() == 0 {
        1
    } else {
        shape[0] * num_elements(shape.skip(1))
    }
}

/// Whether a tensor of shape `from` can stand for one of shape `to` by
/// repeating it along dimensions of length one.
pub open spec fn broadcasts_to(from: Seq<usize>, to: Seq<usize>) -> bool {
    &&& from.len() == to.len()
    &&& forall|i: int| 0 <= i < from.len() ==> #[trigger] from[i] == to[i] || from[i] == 1
}

/// Whether two tensors can be combined element by element: the ranks are equal,
/// and each two dimensions are equal, or one of them has length one and is
/// repeated.
pub open spec fn shapes_join(a: Seq<usize>, b: Seq<usize>) -> bool {
    &&& a.len() == b.len()
    &&& forall|i: int| 0 <= i < a.len() ==> #[trigger] a[i] == b[i] || a[i] == 1 || b[i] == 1
}

/// The shape of two tensors combined element by element.
pub open spec fn joined_shape(a: Seq<usize>, b: Seq<usize>) -> Seq<usize> {
    Seq::new(
        a.len(),
        |i: int|
            if a[i] != 1 {
                a[i]
            } else {
                b[i]
            },
    )
}

/// A tensor that is only repeated itself leaves the other one's shape.
pub broadcast proof fn lemma_joined_with_repeated(a: Seq<usize>, b: Seq<usize>)
    requires
        broadcasts_to(b, a),
    ensures
        #[trigger] joined_shape(a, b) == a,
        shapes_join(a, b),
{
    assert forall|i: int| 0 <= i < a.len() implies #[trigger] a[i] == b[i] || a[i] == 1 || b[i]
        == 1 by {
        assert(b[i] == a[i] || b[i] == 1);
    }
    assert forall|i: int| 0 <= i < a.len() implies #[trigger] joined_shape(a, b)[i] == a[i] by {
        assert(b[i] == a[i] || b[i] == 1);
    }
    assert(joined_shape(a, b) =~= a);
}

/// Tells whether two tensors can be combined element by element.
pub(crate) fn can_join(a: &Vec<usize>, b: &Vec<usize>) -> (yes: bool)
    ensures
        yes == shapes_join(a@, b@),
{
    if a.len() != b.len() {
        return false;
    }
    for i in 0..a.len()
        invariant
            a.len() == b.len(),
            forall|k: int| 0 <= k < i ==> #[trigger] a@[k] == b@[k] || a@[k] == 1 || b@[k] == 1,
    {
        if a[i] != b[i] && a[i] != 1 && b[i] != 1 {
            assert(a@[i as int] != b@[i as int]);
            return false;
        }
    }
    true
}

/// The place in a tensor of shape `from` that stands at the place `i` of the
/// shape `to` that it is repeated to, both counted row by row.
pub open spec fn repeated_place(from: Seq<usize>, to: Seq<usize>, i: int) -> int
    decreases to.len(),
{
    if to.len() == 0 || from.len() == 0 {
        0
    } else {
        let rows = num_elements(to.skip(1));
        let row = if from[0] == 1 {
            0
        } else {
            i / rows
        };
        row * num_elements(from.skip(1)) + repeated_place(from.skip(1), to.skip(1), i % rows)
    }
}

/// A tensor that already has the shape is not repeated: each place stands for
/// itself.
pub proof fn lemma_same_place(shape: Seq<usize>, i: int)
    requires
        0 <= i < num_elements(shape),
    ensures
        repeated_place(shape, shape, i) == i,
    decreases shape.len(),
{
    if shape.len() > 0 {
        let rows = num_elements(shape.skip(1));
        let first = shape[0] as int;
        assert(rows > 0) by (nonlinear_arith)
            requires
                0 <= i < first * rows,
                first >= 0,
        ;
        vstd::arithmetic::div_mod::lemma_fundamental_div_mod(i, rows);
        vstd::arithmetic::div_mod::lemma_mod_bound(i, rows);
        lemma_same_place(shape.skip(1), i % rows);
        if first == 1 {
            assert(first * rows == rows) by (nonlinear_arith)
                requires
                    first == 1,
            ;
            vstd::arithmetic::div_mod::lemma_small_mod(i as nat, rows as nat);
        } else {
            assert((i / rows) * rows == rows * (i / rows)) by (nonlinear_arith);
        }
    }
}

/// Whether a matrix product of tensors with these shapes exists: the ranks are
/// equal, the leading dimensions equal or of length one, and the rows of the
/// right matrix are as many as the columns of the left one.
pub open spec fn matmul_fits(lhs: Seq<usize>, rhs: Seq<usize>) -> bool {
    let n = lhs.len();
    &&& n >= 2
    &&& rhs.len() == n
    &&& lhs[n - 1] == rhs[n - 2]
    &&& forall|i: int|
        0 <= i < n - 2 ==> #[trigger] lhs[i] == rhs[i] || lhs[i] == 1 || rhs[i] == 1
}

/// The shape of a matrix product.
pub open spec fn matmul_shape(lhs: Seq<usize>, rhs: Seq<usize>) -> Seq<usize> {
    let n = lhs.len();
    Seq::new(
        n,
        |i: int|
            if i == n - 1 {
                rhs[i]
            } else if i == n - 2 || lhs[i] != 1 {
                lhs[i]
            } else {
                rhs[i]
            },
    )
}

/// The shape with two dimensions swapped.
pub open spec fn swapped(shape: Seq<usize>, a: int, b: int) -> Seq<usize> {
    shape.update(a, shape[b]).update(b, shape[a])
}

/// Whether each range lies within its dimension.
pub open spec fn ranges_fit(ranges: Seq<(usize, usize)>, shape: Seq<usize>) -> bool {
    &&& ranges.len() == shape.len()
    &&& forall|i: int|
        0 <= i < ranges.len() ==> (#[trigger] ranges[i]).0 <= ranges[i].1 && ranges[i].1 <= shape[i]
}

/// The shape of what the ranges select.
pub open spec fn ranges_shape(ranges: Seq<(usize, usize)>) -> Seq<usize> {
    ranges.map_values(|range: (usize, usize)| (range.1 - range.0) as usize)
}

/// A copy of the list.
pub(crate) fn copy_of(list: &Vec<usize>) -> (copy: Vec<usize>)
    ensures
        copy@ == list@,
{
    let mut copy: Vec<usize> = Vec::new();
    for i in 0..list.len()
        invariant
            copy@ == list@.take(i as int),
    {
        copy.push(list[i]);
        assert(list@.take(i + 1) =~= list@.take(i as int).push(list@[i as int]));
    }
    assert(list@.take(list@.len() as int) =~= list@);
    copy
}

/// Two shapes join exactly if they have as many dimensions and each length is the same
/// or one; whichever comes first, the longer length counts.
pub proof fn lemma_joining_is_symmetric(a: Seq<usize>, b: Seq<usize>)
    requires
        shapes_join(a, b),
    ensures
        shapes_join(b, a),
        joined_shape(a, b) == joined_shape(b, a),
        joined_shape(a, b).len() == a.len(),
        forall|i: int|
            0 <= i < a.len() ==> {
                &&& #[trigger] joined_shape(a, b)[i] == a[i] || joined_shape(a, b)[i] == b[i]
                &&& a[i] != 1 ==> joined_shape(a, b)[i] == a[i]
                &&& b[i] != 1 ==> joined_shape(a, b)[i] == b[i]
            },
        broadcasts_to(a, joined_shape(a, b)),
        broadcasts_to(b, joined_shape(a, b)),
{
    assert(joined_shape(a, b) =~= joined_shape(b, a));
}

/// The number of elements is the product of the lengths: one more dimension in front
/// multiplies it, and so does one behind.
pub proof fn lemma_elements_multiply(shape: Seq<usize>, length: usize)
    ensures
        num_elements(Seq::<usize>::empty()) == 1,
        num_elements(seq![length] + shape) == length * num_elements(shape),
        num_elements(shape.push(length)) == num_elements(shape) * length,
    decreases shape.len(),
{
    assert((seq![length] + shape).skip(1) =~= shape);
    assert((seq![length] + shape)[0] == length);
    if shape.len() == 0 {
        assert(shape.push(length).skip(1) =~= shape);
        assert(length * num_elements(shape) == num_elements(shape) * length) by (nonlinear_arith);
    } else {
        let rest = shape.skip(1);
        lemma_elements_multiply(rest, length);
        assert(shape.push(length).skip(1) =~= rest.push(length));
        let x = shape[0] as int;
        let y = num_elements(rest);
        let z = length as int;
        assert(x * (y * z) == (x * y) * z) by (nonlinear_arith);
    }
}

} // verus!
