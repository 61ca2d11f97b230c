//! The memory layout of a tree node.
use vstd::prelude::*;
use vstd::layout::{size_of, align_of};
use std::alloc::Layout;
use crate::node::Node;

verus! {

/// `std::alloc::Layout`, a size and alignment, carried as an opaque value.
#[verifier::external_type_specification]
#[verifier::external_body]
pub struct ExLayout(Layout);

/// The size in bytes that a layout describes, as `Layout::size` reports it.
pub uninterp spec fn layout_size(l: Layout) -> nat;

/// The alignment in bytes that a layout describes, as `Layout::align`
/// reports it.
pub uninterp spec fn layout_align(l: Layout) -> nat;

/// `Layout::new::<T>()` constructs the layout suitable for holding a value of
/// type `T`: its size is the size of `T` and its alignment that of `T`.
pub assume_specification<T>[ Layout::new::<T> ]() -> (l: Layout)
    ensures
        layout_size(l) == size_of::<T>(),
        layout_align(l) == align_of::<T>(),
;

/// The layout of one node of the tree, the unit in which the map takes
/// memory: the size and alignment of a node.
pub fn node_layout<V>() -> (l: Layout)
    ensures
        layout_size(l) == size_of::<Node<V>>(),
        layout_align(l) == align_of::<Node<V>>(),
{
    Layout::new::<Node<V>>()
}

} // verus!
