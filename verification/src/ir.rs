//! Descriptions of tensor operations, reduced to what stream bookkeeping reads.

use vstd::prelude::*;

verus! {

/// How an operation uses one of its tensors.
#[derive(Clone, Copy, PartialEq, Eq, Structural, Debug, Hash)]
pub enum TensorStatus {
    /// The tensor is read and stays alive.
    ReadOnly,
    /// The tensor is used for the last time and may be overwritten.
    ReadWrite,
    /// The tensor is created by the operation.
    NotInit,
}

/// One use of a tensor by an operation.
#[derive(Clone, Copy, PartialEq, Eq, Structural, Debug, Hash)]
pub struct TensorIr {
    /// The tensor's unique identifier.
    pub id: u64,
    /// How the tensor is used.
    pub status: TensorStatus,
}

/// A compute operation: which kernel it asks for and the tensors it touches.
#[derive(Debug, Hash)]
pub struct ComputeIr {
    /// Identifies the kernel and its scalar parameters.
    pub code: u64,
    /// Every tensor of the operation: its inputs, then its outputs.
    pub nodes: Vec<TensorIr>,
}

/// A tensor operation waiting in a stream.
#[derive(Debug, Hash)]
pub enum OperationIr {
    /// The last user of the tensor is gone.
    Drop(TensorIr),
    /// A compute operation.
    Compute(ComputeIr),
}

/// What an operation is, without its memory representation.
#[verifier::ext_equal]
pub enum OperationView {
    Drop(TensorIr),
    Compute { code: u64, nodes: Seq<TensorIr> },
}

impl OperationIr {
    /// The mathematical content of the operation.
    pub open spec fn view(&self) -> OperationView {
        match self {
            OperationIr::Drop(tensor) => OperationView::Drop(*tensor),
            OperationIr::Compute(compute) => OperationView::Compute {
                code: compute.code,
                nodes: compute.nodes@,
            },
        }
    }

    /// The tensors of the operation, in order.
    pub open spec fn spec_nodes(&self) -> Seq<TensorIr> {
        match self {
            OperationIr::Drop(tensor) => seq![*tensor],
            OperationIr::Compute(compute) => compute.nodes@,
        }
    }

    /// Whether the operation touches the tensor `id`.
    pub open spec fn touches(&self, id: u64) -> bool {
        exists|j: int| 0 <= j < self.spec_nodes().len() && #[trigger] self.spec_nodes()[j].id == id
    }

    /// Whether the operation is the last use of the tensor `id`.
    pub open spec fn consumes(&self, id: u64) -> bool {
        exists|j: int|
            0 <= j < self.spec_nodes().len() && #[trigger] self.spec_nodes()[j].id == id
                && self.spec_nodes()[j].status == TensorStatus::ReadWrite
    }

    /// The tensors of the operation, inputs first.
    pub fn nodes(&self) -> (nodes: Vec<TensorIr>)
        ensures
            nodes@ == self.spec_nodes(),
    {
        match self {
            OperationIr::Drop(tensor) => vec![*tensor],
            OperationIr::Compute(compute) => copy_nodes(&compute.nodes),
        }
    }

    /// A copy of the operation.
    pub fn duplicate(&self) -> (copy: OperationIr)
        ensures
            copy@ == self@,
    {
        match self {
            OperationIr::Drop(tensor) => OperationIr::Drop(*tensor),
            OperationIr::Compute(compute) => OperationIr::Compute(
                ComputeIr { code: compute.code, nodes: copy_nodes(&compute.nodes) },
            ),
        }
    }
}

/// The contents of a list of operations.
pub open spec fn views(operations: Seq<OperationIr>) -> Seq<OperationView> {
    operations.map_values(|operation: OperationIr| operation@)
}

/// Whether one of the operations touches the tensor `id`.
pub open spec fn any_touches(operations: Seq<OperationIr>, id: u64) -> bool {
    exists|i: int| 0 <= i < operations.len() && #[trigger] operations[i].touches(id)
}

/// The tensors that the operations use for the last time.
pub open spec fn consumed_ids(operations: Seq<OperationIr>) -> Set<u64> {
    Set::new(
        |id: u64|
            exists|i: int| 0 <= i < operations.len() && #[trigger] operations[i].consumes(id),
    )
}

fn copy_nodes(nodes: &Vec<TensorIr>) -> (copy: Vec<TensorIr>)
    ensures
        copy@ == nodes@,
{
    let mut copy: Vec<TensorIr> = Vec::new();
    for i in 0..nodes.len()
        invariant
            copy@ == nodes@.take(i as int),
    {
        copy.push(nodes[i]);
        assert(nodes@.take(i + 1) =~= nodes@.take(i as int).push(nodes@[i as int]));
    }
    assert(nodes@.take(nodes@.len() as int) =~= nodes@);
    copy
}

/// Copies of the operations in `operations[from..to]`.
pub fn duplicate_range(operations: &Vec<OperationIr>, from: usize, to: usize) -> (copy: Vec<
    OperationIr,
>)
    requires
        from <= to <= operations.len(),
    ensures
        views(copy@) == views(operations@.subrange(from as int, to as int)),
{
    let mut copy: Vec<OperationIr> = Vec::new();
    for i in from..to
        invariant
            from <= to <= operations.len(),
            copy.len() == i - from,
            forall|j: int| 0 <= j < copy.len() ==> #[trigger] copy[j]@ == operations[from + j]@,
    {
        copy.push(operations[i].duplicate());
    }
    assert(views(copy@) =~= views(operations@.subrange(from as int, to as int)));
    copy
}

/// A copy is of the same sort, asks for the same kernel and touches the same tensors
/// with the same statuses, in the same order.
pub proof fn lemma_copy_is_whole(operation: OperationIr, copy: OperationIr)
    requires
        call_ensures(OperationIr::duplicate, (&operation,), copy),
    ensures
        operation matches OperationIr::Drop(tensor) ==> copy == OperationIr::Drop(tensor),
        operation matches OperationIr::Compute(compute) ==> {
            &&& copy matches OperationIr::Compute(other)
            &&& other.code == compute.code
            &&& other.nodes@ == compute.nodes@
        },
{
}

/// The copies of a range are those of its operations, in order.
pub proof fn lemma_range_is_whole(
    operations: Vec<OperationIr>,
    from: usize,
    to: usize,
    copy: Vec<OperationIr>,
)
    requires
        from <= to <= operations@.len(),
        call_ensures(duplicate_range, (&operations, from, to), copy),
    ensures
        copy@.len() == to - from,
        forall|i: int|
            0 <= i < to - from ==> match operations@[from + i] {
                OperationIr::Drop(tensor) => #[trigger] copy@[i] == OperationIr::Drop(tensor),
                OperationIr::Compute(compute) => copy@[i] matches OperationIr::Compute(other)
                    && other.code == compute.code && other.nodes@ == compute.nodes@,
            },
{
    let part = operations@.subrange(from as int, to as int);
    assert(views(copy@).len() == views(part).len());
    assert forall|i: int| 0 <= i < to - from implies match operations@[from + i] {
        OperationIr::Drop(tensor) => #[trigger] copy@[i] == OperationIr::Drop(tensor),
        OperationIr::Compute(compute) => copy@[i] matches OperationIr::Compute(other) && other.code
            == compute.code && other.nodes@ == compute.nodes@,
    } by {
        assert(views(copy@)[i] == views(part)[i]);
        assert(part[i] == operations@[from + i]);
    }
}

/// An operation touches the tensors that it names and no others: a drop the one that
/// goes, any other all of its inputs and outputs.
pub proof fn lemma_nodes_are_all(operation: OperationIr, nodes: Vec<TensorIr>, id: u64)
    requires
        call_ensures(OperationIr::nodes, (&operation,), nodes),
    ensures
        operation matches OperationIr::Drop(tensor) ==> nodes@ == seq![tensor],
        operation matches OperationIr::Compute(compute) ==> nodes@ == compute.nodes@,
        operation.touches(id) <==> exists|j: int|
            0 <= j < nodes@.len() && #[trigger] nodes@[j].id == id,
        operation.consumes(id) <==> exists|j: int|
            0 <= j < nodes@.len() && #[trigger] nodes@[j] == (TensorIr {
                id,
                status: TensorStatus::ReadWrite,
            }),
{
    if operation.consumes(id) {
        let j = choose|j: int|
            0 <= j < operation.spec_nodes().len() && #[trigger] operation.spec_nodes()[j].id == id
                && operation.spec_nodes()[j].status == TensorStatus::ReadWrite;
        assert(nodes@[j] == (TensorIr { id, status: TensorStatus::ReadWrite }));
    }
    if exists|j: int|
        0 <= j < nodes@.len() && #[trigger] nodes@[j] == (TensorIr {
            id,
            status: TensorStatus::ReadWrite,
        }) {
        let j = choose|j: int|
            0 <= j < nodes@.len() && #[trigger] nodes@[j] == (TensorIr {
                id,
                status: TensorStatus::ReadWrite,
            });
        assert(operation.spec_nodes()[j].id == id);
    }
}

} // verus!
