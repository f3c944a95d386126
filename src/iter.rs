use vstd::prelude::*;

use crate::node::{Node, seq_of, lemma_len_height};

verus! {

/// The sequence of a possibly absent borrowed tree.
pub open spec fn seq_of_ref<T>(t: Option<&Node<T>>) -> Seq<T> {
    match t {
        None => Seq::empty(),
        Some(n) => n@,
    }
}

/// What is still to be visited, given a stack of nodes whose left parts
/// have already been visited; the top of the stack comes first.
pub open spec fn pending<T>(stack: Seq<&Node<T>>) -> Seq<T>
    decreases stack.len(),
{
    if stack.len() == 0 {
        Seq::empty()
    } else {
        let top = stack.last();
        seq![top.data] + seq_of(top.right) + pending(stack.drop_last())
    }
}

/// An in-order cursor over a borrowed tree, holding the part of the left
/// spine that is still to be visited.
pub struct Iter<'a, T> {
    stack: Vec<&'a Node<T>>,
}

impl<'a, T> View for Iter<'a, T> {
    type V = Seq<T>;

    /// The elements that are still to come, in order.
    closed spec fn view(&self) -> Seq<T> {
        pending(self.stack@)
    }
}

impl<'a, T> Iter<'a, T> {
    /// Every node on the stack is well formed.
    pub closed spec fn wf(&self) -> bool {
        forall|i: int| 0 <= i < self.stack@.len() ==> (#[trigger] self.stack@[i]).wf()
    }

    pub fn new(root: Option<&'a Node<T>>) -> (r: Self)
        requires
            root matches Some(n) ==> n.wf(),
        ensures
            r.wf(),
            r@ == seq_of_ref(root),
    {
        let mut this = Iter { stack: Vec::new() };
        this.add(root);
        assert(this@ =~= seq_of_ref(root));
        this
    }

    /// Pushes the left spine of `node`.
    fn add(&mut self, node: Option<&'a Node<T>>)
        requires
            old(self).wf(),
            node matches Some(n) ==> n.wf(),
        ensures
            final(self).wf(),
            final(self)@ == seq_of_ref(node) + old(self)@,
    {
        let mut cur = node;
        while cur.is_some()
            invariant
                self.wf(),
                cur matches Some(n) ==> n.wf(),
                seq_of_ref(cur) + self@ == seq_of_ref(node) + old(self)@,
            decreases seq_of_ref(cur).len(),
        {
            match cur {
                Some(c) => {
                    let ghost before = self.stack@;
                    self.stack.push(c);
                    cur = c.child(false);
                    proof {
                        lemma_len_height(c.left);
                        assert(self.stack@.drop_last() == before);
                        assert(seq_of_ref(cur) == seq_of(c.left));
                        assert(seq_of_ref(cur) + self@ =~= c@ + pending(before));
                    }
                },
                None => {},
            }
        }
        assert(seq_of_ref(cur) + self@ =~= self@);
    }

    /// Gives the next element in order, or `None` when all were visited.
    pub fn next(&mut self) -> (r: Option<&'a T>)
        requires
            old(self).wf(),
        ensures
            final(self).wf(),
            old(self)@.len() == 0 ==> r is None && final(self)@ == old(self)@,
            old(self)@.len() > 0 ==> (r matches Some(x) && *x == old(self)@[0]),
            old(self)@.len() > 0 ==> final(self)@ == old(self)@.drop_first(),
    {
        let ghost before = self.stack@;
        match self.stack.pop() {
            Some(node) => {
                proof {
                    assert(before.drop_last() == self.stack@);
                    assert(node == before.last());
                    assert(before[before.len() - 1].wf());
                    lemma_len_height(node.right);
                }
                let element = node.data();
                let right = node.child(true);
                proof {
                    assert(seq_of_ref(right) == seq_of(node.right));
                }
                self.add(right);
                assert(self@ =~= pending(before).drop_first());
                Some(element)
            },
            None => None,
        }
    }
}

} // verus!
