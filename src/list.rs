use vstd::prelude::*;

use crate::iter::Iter;
use vstd::std_specs::cmp::PartialOrdSpec;
use core::cmp::Ordering;

use crate::node::{Node, seq_of, wf_opt, lemma_len_height, holds, fails};

verus! {

/// An ordered, index-addressable sequence stored in a size-augmented
/// balanced binary tree.
pub struct TreeList<T> {
    root: Option<Box<Node<T>>>,
}

impl<T> View for TreeList<T> {
    type V = Seq<T>;

    closed spec fn view(&self) -> Seq<T> {
        seq_of(self.root)
    }
}

/// `a` compares greater than or equal to `b`.
pub open spec fn geq<T: PartialOrd>(a: T, b: T) -> bool {
    a.partial_cmp_spec(&b) matches Some(Ordering::Greater | Ordering::Equal)
}

/// `a` compares less than or equal to `b`.
pub open spec fn leq<T: PartialOrd>(a: T, b: T) -> bool {
    a.partial_cmp_spec(&b) matches Some(Ordering::Less | Ordering::Equal)
}

/// Along `s` the elements compare below `x` and then at or above it.
pub open spec fn geq_rises<T: PartialOrd>(s: Seq<T>, x: T) -> bool {
    forall|i: int, j: int| 0 <= i <= j < s.len() && #[trigger] geq(s[i], x) ==> #[trigger] geq(s[j], x)
}

/// `t` is `s` with `x` inserted before the first element that is not
/// below it, or at the end when there is none.
pub open spec fn sorted_insertion<T: PartialOrd>(s: Seq<T>, x: T, t: Seq<T>) -> bool {
    exists|k: int|
        0 <= k <= s.len() && t == s.insert(k, x) && (forall|j: int| 0 <= j < k ==> !geq(#[trigger] s[j], x))
            && (k < s.len() ==> geq(s[k], x))
}

/// `s` with the elements at `[start, end)` replaced by `with`.
pub open spec fn spliced<T>(s: Seq<T>, start: int, end: int, with: Seq<T>) -> Seq<T> {
    s.subrange(0, start) + with + s.subrange(end, s.len() as int)
}

/// The elements of `s` ascend.
pub open spec fn sorted<T: PartialOrd>(s: Seq<T>) -> bool {
    forall|i: int, j: int| 0 <= i < j < s.len() ==> leq(#[trigger] s[i], #[trigger] s[j])
}

/// The comparison of `T` is a total order.
pub open spec fn total_order<T: PartialOrd>() -> bool {
    &&& forall|a: T, b: T| #[trigger] geq(a, b) <==> leq(b, a)
    &&& forall|a: T, b: T| #[trigger] leq(a, b) || leq(b, a)
    &&& forall|a: T, b: T, c: T| #[trigger] leq(a, b) && #[trigger] leq(b, c) ==> leq(a, c)
}

impl<T> TreeList<T> {
    /// Every node of the tree records the size and height of its subtree.
    pub closed spec fn wf(&self) -> bool {
        wf_opt(self.root)
    }

    /// The tree that holds the elements (absent when the list is empty).
    pub closed spec fn spec_root(&self) -> Option<Box<Node<T>>> {
        self.root
    }

    pub fn new() -> (r: Self)
        ensures
            r.wf(),
            r@ == Seq::<T>::empty(),
    {
        TreeList { root: None }
    }

    /// A list over an existing tree.
    pub fn raw(root: Option<Box<Node<T>>>) -> (r: Self)
        requires
            wf_opt(root),
        ensures
            r.wf(),
            r@ == seq_of(root),
            r.spec_root() == root,
    {
        TreeList { root }
    }

    /// A list holding the elements of `data` in order.
    pub fn from_vec(data: Vec<T>) -> (r: Self)
        ensures
            r.wf(),
            r@ == data@,
    {
        TreeList { root: Node::from_iter(data) }
    }

    pub fn len(&self) -> (r: usize)
        requires
            self.wf(),
        ensures
            r as nat == self@.len(),
    {
        proof {
            lemma_len_height(self.root);
        }
        match &self.root {
            Some(node) => node.len(),
            None => 0,
        }
    }

    pub fn is_empty(&self) -> (r: bool)
        requires
            self.wf(),
        ensures
            r <==> self@.len() == 0,
    {
        self.len() == 0
    }

    pub fn clear(&mut self)
        ensures
            final(self).wf(),
            final(self)@ == Seq::<T>::empty(),
    {
        self.root = None;
    }

    /// Inserts `element` so that it stands at position `index`.
    pub fn insert(&mut self, index: usize, element: T)
        requires
            old(self).wf(),
            index <= old(self)@.len(),
            old(self)@.len() < usize::MAX,
        ensures
            final(self).wf(),
            final(self)@ == old(self)@.insert(index as int, element),
    {
        let ghost s = self@;
        let node = Node::pin(element);
        proof {
            lemma_len_height(Some(node));
        }
        match self.root.take() {
            Some(root) => {
                proof {
                    lemma_len_height(Some(root));
                }
                let (left, right) = root.split_at(index);
                let front = Node::merge(left, Some(node));
                self.root = Node::merge(front, right);
                assert(self@ =~= s.insert(index as int, element));
            },
            None => {
                self.root = Some(node);
                assert(self@ =~= s.insert(index as int, element));
            },
        }
    }

    pub fn push_front(&mut self, element: T)
        requires
            old(self).wf(),
            old(self)@.len() < usize::MAX,
        ensures
            final(self).wf(),
            final(self)@ == seq![element] + old(self)@,
    {
        let node = Node::pin(element);
        proof {
            lemma_len_height(Some(node));
        }
        self.root = Node::merge(Some(node), self.root.take());
    }

    pub fn push_back(&mut self, element: T)
        requires
            old(self).wf(),
            old(self)@.len() < usize::MAX,
        ensures
            final(self).wf(),
            final(self)@ == old(self)@.push(element),
    {
        let node = Node::pin(element);
        proof {
            lemma_len_height(Some(node));
        }
        self.root = Node::merge(self.root.take(), Some(node));
        assert(self@ =~= old(self)@.push(element));
    }

    /// Moves all the elements of `other` to the end of this list, leaving
    /// `other` empty.
    pub fn append(&mut self, other: &mut Self)
        requires
            old(self).wf(),
            old(other).wf(),
            old(self)@.len() + old(other)@.len() <= usize::MAX,
        ensures
            final(self).wf(),
            final(other).wf(),
            final(self)@ == old(self)@ + old(other)@,
            final(other)@ == Seq::<T>::empty(),
    {
        self.root = Node::merge(self.root.take(), other.root.take());
    }

    /// Removes the element at `index` and returns it; an index past the end
    /// (in particular any index of an empty list) leaves the list as it is
    /// and gives `None`.
    pub fn remove(&mut self, index: usize) -> (r: Option<T>)
        requires
            old(self).wf(),
        ensures
            final(self).wf(),
            index < old(self)@.len() ==> r == Some(old(self)@[index as int]) && final(self)@
                == old(self)@.remove(index as int),
            index >= old(self)@.len() ==> r is None && final(self)@ == old(self)@,
    {
        let ghost s = self@;
        proof {
            lemma_len_height(self.root);
        }
        if index >= self.len() {
            return None;
        }
        match self.root.take() {
            Some(root) => {
                let (left, right) = root.split_at(index);
                match right {
                    Some(right) => {
                        proof {
                            lemma_len_height(Some(right));
                        }
                        let (mid, rest) = right.split_at(1);
                        self.root = Node::merge(left, rest);
                        match mid {
                            Some(m) => {
                                proof {
                                    lemma_len_height(Some(m));
                                    assert(seq_of(Some(m)) =~= seq_of(m.left) + seq![m.data] + seq_of(m.right));
                                    assert(seq_of(m.left).len() == 0);
                                    assert(seq_of(Some(m))[0] == m.data);
                                    assert(self@ =~= s.remove(index as int));
                                }
                                Some(m.into_data())
                            },
                            None => None,
                        }
                    },
                    None => {
                        self.root = left;
                        None
                    },
                }
            },
            None => None,
        }
    }

    /// Removes and returns the first element, or gives `None` when the list
    /// is empty.
    pub fn pop_front(&mut self) -> (r: Option<T>)
        requires
            old(self).wf(),
        ensures
            final(self).wf(),
            old(self)@.len() > 0 ==> r == Some(old(self)@[0]) && final(self)@ == old(self)@.drop_first(),
            old(self)@.len() == 0 ==> r is None && final(self)@ == old(self)@,
    {
        let ghost s = self@;
        proof {
            lemma_len_height(self.root);
        }
        match self.root.take() {
            Some(root) => {
                let (left, right) = root.split_at(1);
                self.root = right;
                assert(self@ =~= s.drop_first());
                match left {
                    Some(m) => {
                        proof {
                            lemma_len_height(Some(m));
                            assert(seq_of(Some(m)) =~= seq_of(m.left) + seq![m.data] + seq_of(m.right));
                            assert(seq_of(m.left).len() == 0);
                            assert(seq_of(Some(m))[0] == m.data);
                        }
                        Some(m.into_data())
                    },
                    None => None,
                }
            },
            None => None,
        }
    }

    /// Removes and returns the last element, or gives `None` when the list
    /// is empty.
    pub fn pop_back(&mut self) -> (r: Option<T>)
        requires
            old(self).wf(),
        ensures
            final(self).wf(),
            old(self)@.len() > 0 ==> r == Some(old(self)@.last()) && final(self)@ == old(self)@.drop_last(),
            old(self)@.len() == 0 ==> r is None && final(self)@ == old(self)@,
    {
        let ghost s = self@;
        proof {
            lemma_len_height(self.root);
        }
        match self.root.take() {
            Some(root) => {
                let index = root.len() - 1;
                let (left, right) = root.split_at(index);
                self.root = left;
                assert(self@ =~= s.drop_last());
                match right {
                    Some(m) => {
                        proof {
                            lemma_len_height(Some(m));
                            assert(seq_of(Some(m)) =~= seq_of(m.left) + seq![m.data] + seq_of(m.right));
                            assert(seq_of(m.left).len() == 0);
                            assert(seq_of(Some(m))[0] == m.data);
                        }
                        Some(m.into_data())
                    },
                    None => None,
                }
            },
            None => None,
        }
    }

    /// Reverses the order of the elements.
    pub fn reverse(&mut self)
        requires
            old(self).wf(),
        ensures
            final(self).wf(),
            final(self)@ == old(self)@.reverse(),
    {
        proof {
            lemma_len_height(self.root);
        }
        match self.root.take() {
            Some(root) => {
                let m = root.mirror();
                proof {
                    lemma_len_height(Some(m));
                }
                self.root = Some(m);
            },
            None => {
                assert(Seq::<T>::empty().reverse() =~= Seq::<T>::empty());
            },
        }
    }

    /// Keeps the first `at` elements and returns a list of the rest.
    pub fn split_off(&mut self, at: usize) -> (r: Self)
        requires
            old(self).wf(),
            at <= old(self)@.len(),
        ensures
            final(self).wf(),
            r.wf(),
            final(self)@ == old(self)@.subrange(0, at as int),
            r@ == old(self)@.subrange(at as int, old(self)@.len() as int),
    {
        let ghost s = self@;
        proof {
            lemma_len_height(self.root);
        }
        match self.root.take() {
            Some(root) => {
                let (left, right) = root.split_at(at);
                self.root = left;
                Self::raw(right)
            },
            None => {
                assert(s.subrange(0, 0) =~= s);
                Self::new()
            },
        }
    }

    /// A cursor over the elements in order.
    pub fn iter(&self) -> (r: Iter<'_, T>)
        requires
            self.wf(),
        ensures
            r.wf(),
            r@ == self@,
    {
        match &self.root {
            Some(node) => Iter::new(Some(&**node)),
            None => Iter::new(None),
        }
    }

    /// The element at `index`.
    pub fn get(&self, index: usize) -> (r: &T)
        requires
            self.wf(),
            index < self@.len(),
        ensures
            *r == self@[index as int],
    {
        proof {
            lemma_len_height(self.root);
        }
        let node = self.root.as_ref().unwrap();
        node.at(index).data()
    }

    /// The element at `index`, for writing.
    pub fn get_mut(&mut self, index: usize) -> (r: &mut T)
        requires
            old(self).wf(),
            index < old(self)@.len(),
        ensures
            *r == old(self)@[index as int],
            final(self).wf(),
            final(self)@ == old(self)@.update(index as int, *final(r)),
    {
        proof {
            lemma_len_height(self.root);
        }
        let node = self.root.as_mut().unwrap();
        node.at_mut(index)
    }

    /// Searches for the boundary of a predicate that reads false and then
    /// true along the list; see `Node::leftmost`. For such a predicate the
    /// result is the first index where it holds.
    pub fn leftmost<P: Fn(&T) -> bool>(&self, predicate: P) -> (r: Option<usize>)
        requires
            self.wf(),
            forall|x: &T| predicate.requires((x,)),
        ensures
            match r {
                Some(i) => i < self@.len() && holds(predicate, self@[i as int]) && (i > 0 ==> fails(
                    predicate,
                    self@[i - 1],
                )),
                None => self@.len() == 0 || fails(predicate, self@.last()),
            },
    {
        proof {
            lemma_len_height(self.root);
        }
        match &self.root {
            Some(node) => node.leftmost(predicate),
            None => None,
        }
    }

    /// Searches for the boundary of a predicate that reads true and then
    /// false along the list; see `Node::rightmost`. For such a predicate the
    /// result is the last index where it holds.
    pub fn rightmost<P: Fn(&T) -> bool>(&self, predicate: P) -> (r: Option<usize>)
        requires
            self.wf(),
            forall|x: &T| predicate.requires((x,)),
        ensures
            match r {
                Some(i) => i < self@.len() && holds(predicate, self@[i as int]) && (i + 1
                    < self@.len() ==> fails(predicate, self@[i + 1])),
                None => self@.len() == 0 || fails(predicate, self@[0]),
            },
    {
        proof {
            lemma_len_height(self.root);
        }
        match &self.root {
            Some(node) => node.rightmost(predicate),
            None => None,
        }
    }

    /// Inserts `x` before the first element that is not below it (at the
    /// end when there is none). On an ascending list that keeps it ascending.
    pub fn insert_sorted(&mut self, x: T) where T: PartialOrd
        requires
            old(self).wf(),
            old(self)@.len() < usize::MAX,
        ensures
            final(self).wf(),
            exists|k: int| 0 <= k <= old(self)@.len() && final(self)@ == old(self)@.insert(k, x),
            T::obeys_partial_cmp_spec() && geq_rises(old(self)@, x) ==> sorted_insertion(
                old(self)@,
                x,
                final(self)@,
            ),
    {
        let ghost s = self@;
        proof {
            lemma_len_height(self.root);
        }
        match self.root.take() {
            Some(root) => {
                let len = root.len();
                let found = {
                    let xr = &x;
                    let pred = |y: &T| -> (b: bool)
                        ensures
                            T::obeys_partial_cmp_spec() ==> b == geq(*y, *xr),
                        { y.ge(xr) };
                    root.leftmost(pred)
                };
                let at: usize = match found {
                    Some(i) => i,
                    None => len,
                };
                proof {
                    if T::obeys_partial_cmp_spec() && geq_rises(s, x) {
                        assert forall|j: int| 0 <= j < at implies !geq(#[trigger] s[j], x) by {
                            if geq(s[j], x) {
                                assert(geq(s[at - 1], x));
                            }
                        }
                    }
                }
                let (left, right) = root.split_at(at);
                let node = Node::pin(x);
                proof {
                    lemma_len_height(Some(node));
                }
                let front = Node::merge(left, Some(node));
                self.root = Node::merge(front, right);
                assert(self@ =~= s.insert(at as int, x));
            },
            None => {
                self.root = Some(Node::pin(x));
                assert(self@ =~= s.insert(0, x));
            },
        }
    }

    /// Replaces the elements at `[start, end)` by those of `replace_with`
    /// and returns the elements that were removed, as a list of their own.
    pub fn splice(&mut self, start: usize, end: usize, replace_with: Vec<T>) -> (r: Self)
        requires
            old(self).wf(),
            start <= end <= old(self)@.len(),
            old(self)@.len() - (end - start) + replace_with@.len() <= usize::MAX,
        ensures
            final(self).wf(),
            r.wf(),
            r@ == old(self)@.subrange(start as int, end as int),
            final(self)@ == spliced(old(self)@, start as int, end as int, replace_with@),
    {
        let ghost s = self@;
        let mut center = self.split_off(start);
        let mut right = center.split_off(end - start);
        let mut middle = Self::from_vec(replace_with);
        self.append(&mut middle);
        self.append(&mut right);
        assert(center@ =~= s.subrange(start as int, end as int));
        assert(self@ =~= spliced(s, start as int, end as int, replace_with@));
        center
    }
}

} // verus!
