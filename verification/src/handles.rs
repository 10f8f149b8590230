//! The backend handles of a device's live tensors.

use crate::ir::{TensorIr, TensorStatus};
use vstd::prelude::*;

verus! {

/// `burn_ir::HandleContainer`, the map from tensor ids to backend handles.
#[verifier::external_type_specification]
#[verifier::external_body]
#[verifier::reject_recursive_types(H)]
pub struct ExHandleContainer<H>(burn_ir::HandleContainer<H>);

/// The handles that exist, by tensor id.
///
/// A backend handle is represented by the number that names it. A tensor that
/// is only announced, or that a failure claims, has no handle here.
pub uninterp spec fn handle_contents(handles: burn_ir::HandleContainer<u64>) -> Map<u64, u64>;

/// `burn_ir::HandleContainer::new`: no tensor has a handle.
#[verifier::external_body]
pub(crate) fn no_handles() -> (handles: burn_ir::HandleContainer<u64>)
    ensures
        handle_contents(handles).dom() == Set::<u64>::empty(),
{
    burn_ir::HandleContainer::new()
}

/// `burn_ir::HandleContainer::register_handle`: the tensor has this handle
/// afterwards, whatever it had before.
#[verifier::external_body]
pub(crate) fn register_handle(handles: &mut burn_ir::HandleContainer<u64>, id: u64, handle: u64)
    ensures
        handle_contents(*final(handles)) == handle_contents(*old(handles)).insert(id, handle),
{
    handles.register_handle(burn_ir::TensorId::new(id), handle)
}

/// `burn_ir::HandleContainer::get_handle_ref`, copied out: the tensor's
/// handle, if it exists.
#[verifier::external_body]
pub(crate) fn get_handle(handles: &burn_ir::HandleContainer<u64>, id: u64) -> (handle: Option<u64>)
    ensures
        handle == handle_contents(*handles).get(id),
{
    handles.get_handle_ref(&burn_ir::TensorId::new(id)).copied()
}

/// `burn_ir::HandleContainer::remove_handle`: the tensor has no handle
/// afterwards. Nothing is claimed of the entry that it returns.
#[verifier::external_body]
pub(crate) fn remove_handle(handles: &mut burn_ir::HandleContainer<u64>, id: u64)
    ensures
        handle_contents(*final(handles)) == handle_contents(*old(handles)).remove(id),
{
    let _ = handles.remove_handle(burn_ir::TensorId::new(id));
}

/// Removes the handle of a tensor that was used for the last time.
pub fn free(handles: &mut burn_ir::HandleContainer<u64>, tensor: &TensorIr)
    ensures
        handle_contents(*final(handles)) == if tensor.status == TensorStatus::ReadWrite {
            handle_contents(*old(handles)).remove(tensor.id)
        } else {
            handle_contents(*old(handles))
        },
{
    match tensor.status {
        TensorStatus::ReadOnly => {},
        TensorStatus::NotInit => {},
        TensorStatus::ReadWrite => {
            remove_handle(handles, tensor.id);
        },
    }
}

} // verus!
