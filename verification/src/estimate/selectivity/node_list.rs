//! Short lists of predicate nodes, kept inline while they are short.

use smallvec::SmallVec;
use vstd::prelude::*;

verus! {

/// `smallvec`'s vector of nodes with counts: a fixed number of items inline,
/// more of them on the heap. Its bounds name a trait of `smallvec`, so the
/// vector stands behind this type and the functions below.
#[verifier::external_body]
pub struct InlineNodes {
    list: SmallVec<[(usize, u64); 8]>,
}

/// The items of a list, in order.
pub uninterp spec fn items(list: InlineNodes) -> Seq<(usize, u64)>;

/// Most items that stand in one such list.
pub const MAX_ITEMS: usize = 0x200_0000;

/// `SmallVec::new`: a list without items.
#[verifier::external_body]
fn empty_list() -> (r: InlineNodes)
    ensures
        items(r) == Seq::<(usize, u64)>::empty(),
{
    InlineNodes { list: SmallVec::new() }
}

/// `SmallVec::push`: adds one item at the end. Growing past the largest
/// allocation panics, so longer lists are left out.
#[verifier::external_body]
fn append(nodes: &mut InlineNodes, item: (usize, u64))
    requires
        items(*old(nodes)).len() < MAX_ITEMS,
    ensures
        items(*final(nodes)) == items(*old(nodes)).push(item),
{
    nodes.list.push(item)
}

/// `SmallVec::len`: the number of items.
#[verifier::external_body]
fn length(nodes: &InlineNodes) -> (r: usize)
    ensures
        r == items(*nodes).len(),
{
    nodes.list.len()
}

/// `SmallVec::as_slice`: the items as a slice.
#[verifier::external_body]
fn slice(nodes: &InlineNodes) -> (r: &[(usize, u64)])
    ensures
        r@ == items(*nodes),
{
    nodes.list.as_slice()
}

/// `SmallVec`'s mutable indexing: replaces one item. Positions past the end
/// panic, so they are left out.
#[verifier::external_body]
fn replace(nodes: &mut InlineNodes, i: usize, item: (usize, u64))
    requires
        i < items(*old(nodes)).len(),
    ensures
        items(*final(nodes)) == items(*old(nodes)).update(i as int, item),
{
    nodes.list[i] = item
}

/// `SmallVec::inline_size`: how many items fit inline, which is the length of
/// the backing array.
#[verifier::external_body]
fn inline_items(nodes: &InlineNodes) -> (r: usize)
    ensures
        r == 8,
{
    nodes.list.inline_size()
}

/// `SmallVec::spilled`: whether the items stand on the heap, as they do where
/// they are more than fit inline. Fewer of them can stand there too, once there
/// were more; that is left unsaid.
#[verifier::external_body]
fn on_heap(nodes: &InlineNodes) -> (r: bool)
    ensures
        items(*nodes).len() > 8 ==> r,
{
    nodes.list.spilled()
}

/// Nodes with occurrence counts. A list that gets longer than `MAX_ITEMS` goes
/// on as a plain vector.
pub struct NodeList {
    nodes: InlineNodes,
    spilled: Option<Vec<(usize, u64)>>,
}

impl View for NodeList {
    type V = Seq<(usize, u64)>;

    closed spec fn view(&self) -> Seq<(usize, u64)> {
        match self.spilled {
            Some(all) => all@,
            None => items(self.nodes),
        }
    }
}

impl NodeList {
    pub fn new() -> (r: NodeList)
        ensures
            r@ == Seq::<(usize, u64)>::empty(),
    {
        NodeList { nodes: empty_list(), spilled: None }
    }

    pub fn len(&self) -> (r: usize)
        ensures
            r == self@.len(),
    {
        match &self.spilled {
            Some(all) => all.len(),
            None => length(&self.nodes),
        }
    }

    pub fn get(&self, i: usize) -> (r: (usize, u64))
        requires
            i < self@.len(),
        ensures
            r == self@[i as int],
    {
        match &self.spilled {
            Some(all) => all[i],
            None => slice(&self.nodes)[i],
        }
    }

    pub fn push(&mut self, node: usize, occurrences: u64)
        ensures
            final(self)@ == old(self)@.push((node, occurrences)),
    {
        if self.spilled.is_none() && length(&self.nodes) >= MAX_ITEMS {
            let all = self.to_vec();
            self.spilled = Some(all);
        }
        match &mut self.spilled {
            Some(all) => {
                all.push((node, occurrences));
            },
            None => {
                append(&mut self.nodes, (node, occurrences));
            },
        }
    }

    pub fn set(&mut self, i: usize, node: usize, occurrences: u64)
        requires
            i < old(self)@.len(),
        ensures
            final(self)@ == old(self)@.update(i as int, (node, occurrences)),
    {
        match &mut self.spilled {
            Some(all) => {
                all.set(i, (node, occurrences));
            },
            None => {
                replace(&mut self.nodes, i, (node, occurrences));
            },
        }
    }

    /// How many items the list holds without an allocation.
    pub fn inline_size(&self) -> (r: usize)
        ensures
            r == 8,
    {
        inline_items(&self.nodes)
    }

    /// Whether the items stand on the heap. More items than fit inline do.
    pub fn spilled(&self) -> (r: bool)
        ensures
            self@.len() > 8 ==> r,
    {
        match &self.spilled {
            Some(_) => true,
            None => on_heap(&self.nodes),
        }
    }

    /// The items in order.
    pub fn to_vec(&self) -> (r: Vec<(usize, u64)>)
        ensures
            r@ == self@,
    {
        let mut r: Vec<(usize, u64)> = Vec::new();
        let mut i: usize = 0;
        while i < self.len()
            invariant
                i <= self@.len(),
                r@ == self@.take(i as int),
            decreases self@.len() - i,
        {
            r.push(self.get(i));
            assert(r@ =~= self@.take(i as int + 1));
            i = i + 1;
        }
        assert(r@ =~= self@);
        r
    }
}

/// Nodes in order, kept as those of a `NodeList`, each with one occurrence.
pub struct NodeSequence {
    list: NodeList,
}

impl View for NodeSequence {
    type V = Seq<usize>;

    closed spec fn view(&self) -> Seq<usize> {
        Seq::new(self.list@.len(), |i: int| self.list@[i].0)
    }
}

impl NodeSequence {
    pub fn new() -> (r: NodeSequence)
        ensures
            r@ == Seq::<usize>::empty(),
    {
        NodeSequence { list: NodeList::new() }
    }

    pub fn len(&self) -> (r: usize)
        ensures
            r == self@.len(),
    {
        self.list.len()
    }

    pub fn get(&self, i: usize) -> (r: usize)
        requires
            i < self@.len(),
        ensures
            r == self@[i as int],
    {
        self.list.get(i).0
    }

    pub fn push(&mut self, node: usize)
        ensures
            final(self)@ == old(self)@.push(node),
    {
        self.list.push(node, 1);
        assert(self@ =~= old(self)@.push(node));
    }
}

} // verus!
