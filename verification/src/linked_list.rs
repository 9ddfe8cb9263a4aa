//! The free lists of the buddy allocator: stacks of block addresses.
//!
//! Each list is kept in a vector whose last element is the head of the list,
//! so pushing and popping at the head are the vector's push and pop.
use vstd::prelude::*;

verus! {

/// A list of free block addresses; the most recently pushed block is the head.
pub struct LinkedList {
    items: Vec<usize>,
}

impl View for LinkedList {
    type V = Seq<usize>;

    /// The blocks in push order: the head is the last element.
    closed spec fn view(&self) -> Seq<usize> {
        self.items@
    }
}

/// A position in a list handed out by `LinkedList::iter_mut`, through which
/// that block can be read or unlinked.
#[derive(Copy, Clone)]
pub struct ListNode {
    index: usize,
    value: usize,
}

impl ListNode {
    /// The position of the block in the list's view.
    pub closed spec fn position(&self) -> int {
        self.index as int
    }

    /// The block address this node refers to.
    pub closed spec fn block(&self) -> usize {
        self.value
    }

    /// Unlinks this node's block from `list` and returns it.
    pub fn pop_current(self, list: &mut LinkedList) -> (r: usize)
        requires
            0 <= self.position() < old(list)@.len(),
            old(list)@[self.position()] == self.block(),
        ensures
            r == self.block(),
            final(list)@ == old(list)@.remove(self.position()),
    {
        list.items.remove(self.index);
        self.value
    }

    /// The block address this node refers to.
    pub fn value(&self) -> (r: usize)
        ensures
            r == self.block(),
    {
        self.value
    }
}

/// The blocks of a list still to be visited, from the head to the tail.
pub struct Iter {
    items: Vec<usize>,
    pos: usize,
}

impl Iter {
    /// The position never passes the end of the copied list.
    #[verifier::type_invariant]
    spec fn pos_in_range(self) -> bool {
        self.pos <= self.items@.len()
    }

    /// The blocks still to be visited, the next one first.
    pub closed spec fn rest(&self) -> Seq<usize> {
        self.items@.subrange(0, self.pos as int).reverse()
    }

    /// The next block, if any.
    pub fn next(&mut self) -> (r: Option<usize>)
        ensures
            old(self).rest().len() == 0 ==> r is None && final(self).rest() == old(self).rest(),
            old(self).rest().len() > 0 ==> r == Some(old(self).rest()[0]) && final(self).rest() == old(self).rest().drop_first(),
    {
        proof {
            use_type_invariant(&*self);
        }
        if self.pos == 0 {
            return None;
        }
        self.pos = self.pos - 1;
        let v = self.items[self.pos];
        proof {
            assert(self.rest() =~= old(self).rest().drop_first());
        }
        Some(v)
    }
}

impl LinkedList {
    /// An empty list.
    pub fn new() -> (r: Self)
        ensures
            r@ == Seq::<usize>::empty(),
    {
        LinkedList { items: Vec::new() }
    }

    /// Whether the list holds no block.
    pub fn is_empty(&self) -> (r: bool)
        ensures
            r == (self@.len() == 0),
    {
        self.items.len() == 0
    }

    /// The number of blocks in the list.
    pub fn len(&self) -> (r: usize)
        ensures
            r == self@.len(),
    {
        self.items.len()
    }

    /// Makes `item` the new head.
    pub fn push(&mut self, item: usize)
        ensures
            final(self)@ == old(self)@.push(item),
    {
        self.items.push(item);
    }

    /// Removes and returns the head, if any.
    pub fn pop(&mut self) -> (r: Option<usize>)
        ensures
            old(self)@.len() == 0 ==> r is None && final(self)@ == old(self)@,
            old(self)@.len() > 0 ==> r == Some(old(self)@.last()) && final(self)@ == old(self)@.drop_last(),
    {
        self.items.pop()
    }

    /// The blocks from the head to the tail, one at a time.
    pub fn iter(&self) -> (r: Iter)
        ensures
            r.rest() == self@.reverse(),
    {
        let items = self.items.clone();
        let r = Iter { pos: items.len(), items };
        proof {
            assert(r.items@.subrange(0, r.pos as int) =~= self@);
        }
        r
    }

    /// Nodes for the blocks from the head to the tail.
    pub fn iter_mut(&self) -> (r: Vec<ListNode>)
        ensures
            r@.len() == self@.len(),
            forall|j: int|
                0 <= j < r@.len() ==> (#[trigger] r@[j]).position() == self@.len() - 1 - j
                    && r@[j].block() == self@[self@.len() - 1 - j],
    {
        let mut out: Vec<ListNode> = Vec::new();
        let n = self.items.len();
        let mut i = n;
        while i > 0
            invariant
                i <= n,
                n == self@.len(),
                out@.len() == n - i,
                forall|j: int|
                    0 <= j < n - i ==> (#[trigger] out@[j]).position() == n - 1 - j
                        && out@[j].block() == self@[n - 1 - j],
            decreases i,
        {
            i = i - 1;
            out.push(ListNode { index: i, value: self.items[i] });
        }
        out
    }
}

} // verus!
