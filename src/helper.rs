use vstd::prelude::*;

use crate::node::Node;

verus! {

/// Hooks that let the tree mechanics carry an augmentation of their own:
/// `update` recomputes it after a structural change, `push` hands pending
/// work down to the children. Neither may change the sequence.
pub trait Helper<T> {
    fn update(node: &mut Node<T>)
        requires
            old(node).wf(),
        ensures
            final(node).wf(),
            final(node)@ == old(node)@,
    ;

    fn push(node: &mut Node<T>)
        requires
            old(node).wf(),
        ensures
            final(node).wf(),
            final(node)@ == old(node)@,
    ;
}

/// The policy of a plain list: no augmentation beyond size and height.
pub struct ListHelper<T>(pub std::marker::PhantomData<T>);

impl<T> Helper<T> for ListHelper<T> {
    fn update(node: &mut Node<T>) {
    }

    fn push(node: &mut Node<T>) {
    }
}

} // verus!
