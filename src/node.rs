use vstd::prelude::*;

verus! {

/// A node of a size-augmented binary tree; the in-order sequence of the
/// payloads is the sequence that the tree stands for.
pub struct Node<T> {
    pub data: T,
    pub len: usize,
    pub height: usize,
    pub left: Option<Box<Node<T>>>,
    pub right: Option<Box<Node<T>>>,
}

/// The in-order sequence of a possibly absent tree.
pub open spec fn seq_of<T>(t: Option<Box<Node<T>>>) -> Seq<T>
    decreases t,
{
    match t {
        None => Seq::empty(),
        Some(n) => seq_of(n.left) + seq![n.data] + seq_of(n.right),
    }
}

/// Every node of a possibly absent tree has consistent size and height.
pub open spec fn wf_opt<T>(t: Option<Box<Node<T>>>) -> bool
    decreases t,
{
    match t {
        None => true,
        Some(n) => n.wf_local() && wf_opt(n.left) && wf_opt(n.right),
    }
}

/// The stored height of a possibly absent tree (0 when absent).
pub open spec fn height_of<T>(t: Option<Box<Node<T>>>) -> nat {
    match t {
        None => 0,
        Some(n) => n.height as nat,
    }
}

/// The number of nodes of a possibly absent tree.
pub open spec fn len_of<T>(t: Option<Box<Node<T>>>) -> nat {
    seq_of(t).len()
}

/// The larger of two naturals.
pub open spec fn max_nat(a: nat, b: nat) -> nat {
    if a >= b {
        a
    } else {
        b
    }
}

impl<T> View for Node<T> {
    type V = Seq<T>;

    open spec fn view(&self) -> Seq<T> {
        seq_of(self.left) + seq![self.data] + seq_of(self.right)
    }
}

impl<T> Node<T> {
    /// Size and height of this node agree with its children.
    pub open spec fn wf_local(&self) -> bool {
        &&& self.len as nat == len_of(self.left) + 1 + len_of(self.right)
        &&& self.height as nat == 1 + max_nat(height_of(self.left), height_of(self.right))
        &&& self.height <= self.len
    }

    /// This node and all nodes below it are well formed.
    pub open spec fn wf(&self) -> bool {
        self.wf_local() && wf_opt(self.left) && wf_opt(self.right)
    }

    /// A leaf holding one element.
    pub fn new(data: T) -> (r: Self)
        ensures
            r.wf(),
            r@ == seq![data],
            r.height == 1,
    {
        Node { data, len: 1, height: 1, left: None, right: None }
    }

    /// A leaf holding one element, on the heap.
    pub fn pin(data: T) -> (r: Box<Self>)
        ensures
            r.wf(),
            r@ == seq![data],
            r.height == 1,
    {
        Box::new(Self::new(data))
    }

    pub fn len(&self) -> (r: usize)
        requires
            self.wf(),
        ensures
            r as nat == self@.len(),
    {
        self.len
    }

    pub fn data(&self) -> (r: &T)
        ensures
            *r == self.data,
    {
        &self.data
    }

    pub fn data_mut(&mut self) -> (r: &mut T)
        ensures
            *r == old(self).data,
            *final(self) == (Node { data: *final(r), ..*old(self) }),
    {
        &mut self.data
    }

    pub fn into_data(self) -> (r: T)
        ensures
            r == self.data,
    {
        self.data
    }

    /// The left child when `dir` is false, the right one when it is true.
    pub fn child(&self, dir: bool) -> (r: Option<&Node<T>>)
        ensures
            r matches Some(c) ==> (if dir { self.right == Some(Box::new(*c)) } else { self.left
                == Some(Box::new(*c)) }),
            r is None <==> (if dir { self.right is None } else { self.left is None }),
    {
        if dir {
            match &self.right {
                Some(c) => Some(&**c),
                None => None,
            }
        } else {
            match &self.left {
                Some(c) => Some(&**c),
                None => None,
            }
        }
    }

    /// Recomputes the size and height of this node from its children.
    pub fn update(&mut self)
        requires
            wf_opt(old(self).left),
            wf_opt(old(self).right),
            len_of(old(self).left) + 1 + len_of(old(self).right) <= usize::MAX,
        ensures
            final(self).wf(),
            final(self).data == old(self).data,
            final(self).left == old(self).left,
            final(self).right == old(self).right,
    {
        proof {
            lemma_len_height(self.left);
            lemma_len_height(self.right);
        }
        let mut len: usize = 1;
        let mut height: usize = 1;
        match &self.left {
            Some(c) => {
                len = len + c.len;
                height = c.height + 1;
            },
            None => {},
        }
        match &self.right {
            Some(c) => {
                len = len + c.len;
                if c.height + 1 > height {
                    height = c.height + 1;
                }
            },
            None => {},
        }
        self.len = len;
        self.height = height;
    }

    /// Single rotation: with `dir` false the right child becomes the root
    /// (a left rotation), with `dir` true the left child does. Nothing
    /// changes when that child is absent.
    pub fn rotate(self: Box<Self>, dir: bool) -> (r: Box<Self>)
        requires
            self.wf(),
        ensures
            r.wf(),
            r@ == self@,
            !dir && self.right is None ==> *r == *self,
            dir && self.left is None ==> *r == *self,
            !dir && self.right is Some ==> r.data == self.right.unwrap().data && (r.left matches Some(
                n,
            ) && n.data == self.data && n.left == self.left && n.right
                == self.right.unwrap().left),
            dir && self.left is Some ==> r.data == self.left.unwrap().data && (r.right matches Some(
                n,
            ) && n.data == self.data && n.right == self.right && n.left
                == self.left.unwrap().right),
    {
        proof {
            lemma_len_height(self.left);
            lemma_len_height(self.right);
        }
        let mut node = *self;
        if !dir {
            match node.right.take() {
                Some(c) => {
                    let mut c = *c;
                    proof {
                        lemma_len_height(c.left);
                        lemma_len_height(c.right);
                    }
                    node.right = c.left.take();
                    node.update();
                    c.left = Some(Box::new(node));
                    c.update();
                    assert(c@ =~= self@);
                    Box::new(c)
                },
                None => Box::new(node),
            }
        } else {
            match node.left.take() {
                Some(c) => {
                    let mut c = *c;
                    proof {
                        lemma_len_height(c.left);
                        lemma_len_height(c.right);
                    }
                    node.left = c.right.take();
                    node.update();
                    c.right = Some(Box::new(node));
                    c.update();
                    assert(c@ =~= self@);
                    Box::new(c)
                },
                None => Box::new(node),
            }
        }
    }

    /// Rotates once towards the lower side when the heights of the two
    /// children differ by two or more.
    pub fn balance(self: Box<Self>) -> (r: Box<Self>)
        requires
            self.wf(),
        ensures
            r.wf(),
            r@ == self@,
            height_of(self.left) + 2 <= height_of(self.right) ==> r.data == self.right.unwrap().data,
            height_of(self.right) + 2 <= height_of(self.left) ==> r.data == self.left.unwrap().data,
            height_of(self.left) < height_of(self.right) + 2 && height_of(self.right) < height_of(
                self.left,
            ) + 2 ==> *r == *self,
    {
        proof {
            lemma_len_height(self.left);
            lemma_len_height(self.right);
        }
        let lh: usize = match &self.left {
            Some(c) => c.height,
            None => 0,
        };
        let rh: usize = match &self.right {
            Some(c) => c.height,
            None => 0,
        };
        if rh >= 2 && lh <= rh - 2 {
            self.rotate(false)
        } else if lh >= 2 && rh <= lh - 2 {
            self.rotate(true)
        } else {
            self
        }
    }

    /// Attaches `other` as the new rightmost part of this tree, rebalancing
    /// on the way back up.
    pub fn append(self: Box<Self>, other: Box<Self>) -> (r: Box<Self>)
        requires
            self.wf(),
            other.wf(),
            self@.len() + other@.len() <= usize::MAX,
        ensures
            r.wf(),
            r@ == self@ + other@,
        decreases self@.len(),
    {
        proof {
            lemma_len_height(self.left);
            lemma_len_height(self.right);
        }
        let mut node = *self;
        let joined = match node.right.take() {
            Some(c) => c.append(other),
            None => other,
        };
        node.right = Some(joined);
        proof {
            lemma_len_height(node.right);
        }
        node.update();
        assert(node@ =~= self@ + other@);
        Box::new(node).balance()
    }

    /// Concatenates two possibly absent trees.
    pub fn merge(left: Option<Box<Self>>, right: Option<Box<Self>>) -> (r: Option<Box<Self>>)
        requires
            wf_opt(left),
            wf_opt(right),
            len_of(left) + len_of(right) <= usize::MAX,
        ensures
            wf_opt(r),
            seq_of(r) == seq_of(left) + seq_of(right),
    {
        proof {
            lemma_len_height(left);
            lemma_len_height(right);
        }
        match left {
            Some(l) => match right {
                Some(rt) => {
                    let j = l.append(rt);
                    proof {
                        lemma_len_height(Some(j));
                    }
                    Some(j)
                },
                None => {
                    assert(seq_of(right) =~= Seq::<T>::empty());
                    assert(seq_of(Some(l)) + seq_of(right) =~= seq_of(Some(l)));
                    Some(l)
                },
            },
            None => {
                assert(seq_of(left) + seq_of(right) =~= seq_of(right));
                right
            },
        }
    }

    /// Splits the tree so that the first part holds the first `at` elements.
    pub fn split_at(self: Box<Self>, at: usize) -> (r: (Option<Box<Self>>, Option<Box<Self>>))
        requires
            self.wf(),
            at <= self@.len(),
        ensures
            wf_opt(r.0),
            wf_opt(r.1),
            seq_of(r.0) == self@.subrange(0, at as int),
            seq_of(r.1) == self@.subrange(at as int, self@.len() as int),
        decreases self@.len(),
    {
        proof {
            lemma_len_height(self.left);
            lemma_len_height(self.right);
            lemma_len_height(Some(self));
        }
        if at == 0 {
            assert(self@.subrange(0, 0) =~= Seq::<T>::empty());
            assert(self@.subrange(0, self@.len() as int) =~= self@);
            (None, Some(self))
        } else if at == self.len {
            assert(self@.subrange(at as int, at as int) =~= Seq::<T>::empty());
            assert(self@.subrange(0, self@.len() as int) =~= self@);
            (Some(self), None)
        } else {
            let mut node = *self;
            let left_len: usize = match &node.left {
                Some(c) => c.len,
                None => 0,
            };
            if at <= left_len {
                match node.left.take() {
                    Some(c) => {
                        let (l, r) = c.split_at(at);
                        node.left = r;
                        node.update();
                        let b = Box::new(node).balance();
                        proof {
                            lemma_split_in_left(seq_of(self.left), self.data, seq_of(self.right), at as int);
                            lemma_len_height(Some(b));
                        }
                        (l, Some(b))
                    },
                    None => (None, Some(Box::new(node))),
                }
            } else {
                match node.right.take() {
                    Some(c) => {
                        let (l, r) = c.split_at(at - left_len - 1);
                        node.right = l;
                        node.update();
                        let b = Box::new(node).balance();
                        proof {
                            lemma_split_in_right(seq_of(self.left), self.data, seq_of(self.right), at as int);
                            lemma_len_height(Some(b));
                        }
                        (Some(b), r)
                    },
                    None => (Some(Box::new(node)), None),
                }
            }
        }
    }

    /// The node at the given in-order position.
    pub fn at(&self, index: usize) -> (r: &Self)
        requires
            self.wf(),
            index < self@.len(),
        ensures
            r.data == self@[index as int],
        decreases self@.len(),
    {
        proof {
            lemma_len_height(self.left);
            lemma_len_height(self.right);
        }
        let mut left_len: usize = 0;
        if let Some(left) = &self.left {
            left_len = left.len;
            if index < left_len {
                return left.at(index);
            }
        }
        if index == left_len {
            return self;
        }
        match &self.right {
            Some(right) => right.at(index - left_len - 1),
            None => self,
        }
    }

    /// The element at the given in-order position, for writing; nothing
    /// else of the tree can change through it.
    pub fn at_mut(&mut self, index: usize) -> (r: &mut T)
        requires
            old(self).wf(),
            index < old(self)@.len(),
        ensures
            *r == old(self)@[index as int],
            final(self).wf(),
            final(self)@ == old(self)@.update(index as int, *final(r)),
            final(self).len == old(self).len,
            final(self).height == old(self).height,
        decreases old(self)@.len(),
    {
        proof {
            lemma_len_height(self.left);
            lemma_len_height(self.right);
        }
        let left_len: usize = match &self.left {
            Some(l) => l.len,
            None => 0,
        };
        if index < left_len {
            match &mut self.left {
                Some(l) => l.at_mut(index),
                None => &mut self.data,
            }
        } else if index == left_len {
            &mut self.data
        } else {
            match &mut self.right {
                Some(rt) => rt.at_mut(index - left_len - 1),
                None => &mut self.data,
            }
        }
    }

    /// Searches for the boundary of a predicate that reads false and then
    /// true along the sequence. A result `Some(i)` is an index where the
    /// predicate answered true and, unless `i` is 0, answered false just
    /// before; `None` means it answered false at the last element. For such a
    /// predicate `i` is therefore the first index where it holds.
    pub fn leftmost<P: Fn(&T) -> bool>(&self, predicate: P) -> (r: Option<usize>)
        requires
            self.wf(),
            forall|x: &T| predicate.requires((x,)),
        ensures
            match r {
                Some(i) => i < self@.len() && holds(predicate, self@[i as int]) && (i > 0 ==> fails(
                    predicate,
                    self@[i - 1],
                )),
                None => fails(predicate, self@.last()),
            },
        decreases self@.len(),
    {
        proof {
            lemma_len_height(self.left);
            lemma_len_height(self.right);
            lemma_parts(seq_of(self.left), self.data, seq_of(self.right));
        }
        let left_len: usize = match &self.left {
            Some(left) => left.len,
            None => 0,
        };
        let result = predicate(&self.data);
        if result {
            match &self.left {
                Some(left) => match left.leftmost(predicate) {
                    Some(i) => Some(i),
                    None => Some(left_len),
                },
                None => Some(left_len),
            }
        } else {
            match &self.right {
                Some(right) => match right.leftmost(predicate) {
                    Some(i) => Some(left_len + 1 + i),
                    None => None,
                },
                None => None,
            }
        }
    }

    /// Searches for the boundary of a predicate that reads true and then
    /// false along the sequence. A result `Some(i)` is an index where the
    /// predicate answered true and, unless `i` is the last index, answered
    /// false just after; `None` means it answered false at the first element.
    /// For such a predicate `i` is therefore the last index where it holds.
    pub fn rightmost<P: Fn(&T) -> bool>(&self, predicate: P) -> (r: Option<usize>)
        requires
            self.wf(),
            forall|x: &T| predicate.requires((x,)),
        ensures
            match r {
                Some(i) => i < self@.len() && holds(predicate, self@[i as int]) && (i + 1
                    < self@.len() ==> fails(predicate, self@[i + 1])),
                None => fails(predicate, self@[0]),
            },
        decreases self@.len(),
    {
        proof {
            lemma_len_height(self.left);
            lemma_len_height(self.right);
            lemma_parts(seq_of(self.left), self.data, seq_of(self.right));
        }
        let left_len: usize = match &self.left {
            Some(left) => left.len,
            None => 0,
        };
        let result = predicate(&self.data);
        if result {
            match &self.right {
                Some(right) => match right.rightmost(predicate) {
                    Some(i) => Some(left_len + 1 + i),
                    None => Some(left_len),
                },
                None => Some(left_len),
            }
        } else {
            match &self.left {
                Some(left) => left.rightmost(predicate),
                None => None,
            }
        }
    }

    /// Swaps the children of every node, which reverses the sequence.
    pub fn mirror(self: Box<Self>) -> (r: Box<Self>)
        requires
            self.wf(),
        ensures
            r.wf(),
            r@ == self@.reverse(),
            r.len == self.len,
            r.height == self.height,
        decreases self@.len(),
    {
        proof {
            lemma_len_height(self.left);
            lemma_len_height(self.right);
        }
        let mut node = *self;
        let l = node.left.take();
        let r = node.right.take();
        node.left = match r {
            Some(c) => Some(c.mirror()),
            None => None,
        };
        node.right = match l {
            Some(c) => Some(c.mirror()),
            None => None,
        };
        proof {
            lemma_len_height(node.left);
            lemma_len_height(node.right);
            lemma_reverse_join(seq_of(self.left), self.data, seq_of(self.right));
            assert(seq_of(self.left).reverse().len() == seq_of(self.left).len());
            assert(seq_of(self.right).reverse().len() == seq_of(self.right).len());
        }
        Box::new(node)
    }

    /// Builds a tree holding the elements of `data` in order.
    pub fn from_iter(data: Vec<T>) -> (r: Option<Box<Self>>)
        ensures
            wf_opt(r),
            seq_of(r) == data@,
    {
        let ghost all = data@;
        let n: usize = data.len();
        let mut rest = data;
        let mut node: Option<Box<Self>> = None;
        while rest.len() > 0
            invariant
                wf_opt(node),
                rest@ + seq_of(node) == all,
                all.len() <= usize::MAX,
            decreases rest.len(),
        {
            let ghost before = rest@;
            match rest.pop() {
                Some(x) => {
                    proof {
                        assert(before == rest@.push(x));
                    }
                    let leaf = Self::pin(x);
                    proof {
                        lemma_len_height(Some(leaf));
                    }
                    node = Self::merge(Some(leaf), node);
                    proof {
                        assert(rest@ + seq_of(node) =~= all);
                    }
                },
                None => {},
            }
        }
        assert(rest@ =~= Seq::<T>::empty());
        assert(rest@ + seq_of(node) =~= seq_of(node));
        node
    }
}

/// In a well-formed tree the stored size is the length of the sequence, and
/// the height never exceeds it.
pub proof fn lemma_len_height<T>(t: Option<Box<Node<T>>>)
    requires
        wf_opt(t),
    ensures
        height_of(t) <= len_of(t),
        t matches Some(n) ==> n.len as nat == len_of(t) && n@ == seq_of(t),
{
    if let Some(n) = t {
        assert(seq_of(t) == n@);
    }
}

/// The predicate may answer true for this element.
pub open spec fn holds<T, P: Fn(&T) -> bool>(p: P, x: T) -> bool {
    p.ensures((&x,), true)
}

/// The predicate may answer false for this element.
pub open spec fn fails<T, P: Fn(&T) -> bool>(p: P, x: T) -> bool {
    p.ensures((&x,), false)
}

proof fn lemma_reverse_join<T>(a: Seq<T>, x: T, b: Seq<T>)
    ensures
        (a + seq![x] + b).reverse() == b.reverse() + seq![x] + a.reverse(),
{
    assert((a + seq![x] + b).reverse() =~= b.reverse() + seq![x] + a.reverse());
}

proof fn lemma_parts<T>(a: Seq<T>, x: T, b: Seq<T>)
    ensures
        (a + seq![x] + b).subrange(0, a.len() as int) == a,
        (a + seq![x] + b)[a.len() as int] == x,
        (a + seq![x] + b).subrange((a.len() + 1) as int, (a.len() + 1 + b.len()) as int) == b,
{
    assert((a + seq![x] + b).subrange(0, a.len() as int) =~= a);
    assert((a + seq![x] + b).subrange((a.len() + 1) as int, (a.len() + 1 + b.len()) as int) =~= b);
}

proof fn lemma_split_in_left<T>(a: Seq<T>, x: T, b: Seq<T>, at: int)
    requires
        0 <= at <= a.len(),
    ensures
        (a + seq![x] + b).subrange(0, at) == a.subrange(0, at),
        (a + seq![x] + b).subrange(at, (a.len() + 1 + b.len()) as int) == a.subrange(at, a.len() as int)
            + seq![x] + b,
{
    assert((a + seq![x] + b).subrange(0, at) =~= a.subrange(0, at));
    assert((a + seq![x] + b).subrange(at, (a.len() + 1 + b.len()) as int) =~= a.subrange(at, a.len() as int)
        + seq![x] + b);
}

proof fn lemma_split_in_right<T>(a: Seq<T>, x: T, b: Seq<T>, at: int)
    requires
        a.len() < at <= a.len() + 1 + b.len(),
    ensures
        (a + seq![x] + b).subrange(0, at) == a + seq![x] + b.subrange(0, at - a.len() - 1),
        (a + seq![x] + b).subrange(at, (a.len() + 1 + b.len()) as int) == b.subrange(
            at - a.len() - 1,
            b.len() as int,
        ),
{
    assert((a + seq![x] + b).subrange(0, at) =~= a + seq![x] + b.subrange(0, at - a.len() - 1));
    assert((a + seq![x] + b).subrange(at, (a.len() + 1 + b.len()) as int) =~= b.subrange(
        at - a.len() - 1,
        b.len() as int,
    ));
}

} // verus!
