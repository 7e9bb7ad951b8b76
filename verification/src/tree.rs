//! The arena tree: an append-only, index-addressed store of nodes.
//!
//! Node identity is its index into the arena.  A node's children are an
//! ordered list of indices; parents are implicit.  The arena never removes
//! or renumbers a node.  Traversal is depth-first pre-order and yields each
//! node's depth beside its payload; the specification-level traversal is
//! `dfs`, and the executable iterator is proved to enumerate exactly it.

use vstd::prelude::*;

verus! {

/// One record of the arena: its own index, its children in document order,
/// and its payload.
pub struct TreeNode<T> {
    pub index: usize,
    pub children: Vec<usize>,
    pub data: T,
}

/// The arena itself: the records, and an optional root index.
pub struct Tree<T> {
    pub data: Vec<TreeNode<T>>,
    pub root: Option<usize>,
}

impl<T> Tree<T> {
    /// Every stored index refers to an existing record, and every child was
    /// created after its parent (children always have the larger index, since
    /// a node is created before anything is appended to it).
    pub open spec fn edges_ok(self) -> bool {
        &&& (self.root matches Some(r) ==> (r as int) < self.data@.len())
        &&& forall|i: int, j: int|
            0 <= i < self.data@.len() && 0 <= j < self.data@[i].children@.len() ==> i < (
            #[trigger] self.data@[i].children@[j] as int) < self.data@.len()
    }

    /// Each record's stored index is its position in the arena.
    pub open spec fn indices_ok(self) -> bool {
        forall|i: int|
            0 <= i < self.data@.len() ==> (#[trigger] self.data@[i].index) as int == i
    }

    /// No index occurs twice among all the child lists: every node has at
    /// most one parent, and appears at most once in that parent's list.
    pub open spec fn children_unique(self) -> bool {
        forall|i1: int, j1: int, i2: int, j2: int|
            0 <= i1 < self.data@.len() && 0 <= j1 < self.data@[i1].children@.len() && 0 <= i2
                < self.data@.len() && 0 <= j2 < self.data@[i2].children@.len() && !(i1 == i2 && j1
                == j2) ==> #[trigger] self.data@[i1].children@[j1]
                != #[trigger] self.data@[i2].children@[j2]
    }

    /// The structural invariant of a well-formed arena tree.
    pub open spec fn wf(self) -> bool {
        self.edges_ok() && self.indices_ok() && self.children_unique()
    }

    pub fn new() -> (t: Self)
        ensures
            t.data@ == Seq::<TreeNode<T>>::empty(),
            t.root is None,
    {
        Tree { data: Vec::new(), root: None }
    }

    /// Designates the document root.
    pub fn set_root(&mut self, root: usize)
        ensures
            final(self).data == old(self).data,
            final(self).root == Some(root),
    {
        self.root = Some(root);
    }

    /// Appends a fresh record holding `data`, with no children, and returns
    /// its index.  Outstanding indices are never disturbed.
    pub fn create_node(&mut self, data: T) -> (index: usize)
        ensures
            index as int == old(self).data@.len(),
            final(self).root == old(self).root,
            final(self).data@.len() == old(self).data@.len() + 1,
            forall|i: int|
                0 <= i < old(self).data@.len() ==> final(self).data@[i] == old(self).data@[i],
            final(self).data@[index as int].index == index,
            final(self).data@[index as int].children@ == Seq::<usize>::empty(),
            final(self).data@[index as int].data == data,
    {
        let index = self.data.len();
        let node = TreeNode { index, children: Vec::new(), data };
        self.data.push(node);
        index
    }

    /// Appends one child index to a parent's child list.  The caller is
    /// responsible for not inserting the same child twice.
    pub fn add_child(&mut self, parent: usize, child: usize)
        requires
            (parent as int) < old(self).data@.len(),
        ensures
            final(self).root == old(self).root,
            final(self).data@.len() == old(self).data@.len(),
            forall|i: int|
                0 <= i < old(self).data@.len() && i != parent as int ==> final(self).data@[i]
                    == old(self).data@[i],
            final(self).data@[parent as int].index == old(self).data@[parent as int].index,
            final(self).data@[parent as int].data == old(self).data@[parent as int].data,
            final(self).data@[parent as int].children@ == old(
                self,
            ).data@[parent as int].children@.push(child),
    {
        let parent_element = &mut self.data[parent];
        parent_element.children.push(child);
    }

    /// Appends each child in order, as `add_child` would one by one.
    pub fn add_children(&mut self, parent: usize, children: Vec<usize>)
        requires
            (parent as int) < old(self).data@.len(),
        ensures
            final(self).root == old(self).root,
            final(self).data@.len() == old(self).data@.len(),
            forall|i: int|
                0 <= i < old(self).data@.len() && i != parent as int ==> final(self).data@[i]
                    == old(self).data@[i],
            final(self).data@[parent as int].index == old(self).data@[parent as int].index,
            final(self).data@[parent as int].data == old(self).data@[parent as int].data,
            final(self).data@[parent as int].children@ == old(
                self,
            ).data@[parent as int].children@ + children@,
    {
        let ghost orig = self.data@[parent as int].children@;
        let n = children.len();
        let mut k: usize = 0;
        while k < n
            invariant
                k <= n,
                n == children@.len(),
                (parent as int) < self.data@.len(),
                self.data@.len() == old(self).data@.len(),
                self.root == old(self).root,
                forall|i: int|
                    0 <= i < old(self).data@.len() && i != parent as int ==> self.data@[i] == old(
                        self,
                    ).data@[i],
                self.data@[parent as int].index == old(self).data@[parent as int].index,
                self.data@[parent as int].data == old(self).data@[parent as int].data,
                self.data@[parent as int].children@ == orig + children@.subrange(0, k as int),
            decreases n - k,
        {
            self.add_child(parent, children[k]);
            proof {
                assert(orig + children@.subrange(0, k as int + 1) == (orig + children@.subrange(
                    0,
                    k as int,
                )).push(children@[k as int]));
            }
            k = k + 1;
        }
        proof {
            assert(children@.subrange(0, n as int) == children@);
        }
    }

    /// Reads the record at a valid index; the arena is total over the
    /// indices it has handed out.
    pub fn get_node(&self, index: usize) -> (node: &TreeNode<T>)
        requires
            (index as int) < self.data@.len(),
        ensures
            *node == self.data@[index as int],
    {
        &self.data[index]
    }

    /// Overwrites the payload at a valid index, preserving the node's index
    /// and children.
    pub fn replace_data_at_index(&mut self, index: usize, new_data: T)
        requires
            (index as int) < old(self).data@.len(),
        ensures
            final(self).root == old(self).root,
            final(self).data@.len() == old(self).data@.len(),
            forall|i: int|
                0 <= i < old(self).data@.len() && i != index as int ==> final(self).data@[i] == old(
                    self,
                ).data@[i],
            final(self).data@[index as int].index == old(self).data@[index as int].index,
            final(self).data@[index as int].children@ == old(
                self,
            ).data@[index as int].children@,
            final(self).data@[index as int].data == new_data,
    {
        let element = &mut self.data[index];
        element.data = new_data;
    }
}

/// The depth-first pre-order traversal from the node at index `i`, which
/// stands at depth `d`: the node itself, then each child's subtree in order.
pub open spec fn dfs_node<T>(t: Tree<T>, i: int, d: nat) -> Seq<(nat, T)>
    decreases t.data@.len() - i, t.data@[i].children@.len() + 1,
    when t.edges_ok() && 0 <= i < t.data@.len()
{
    seq![(d, t.data@[i].data)] + dfs_list(t, i, 0, d + 1)
}

/// The concatenated traversals of the children of node `parent` from child
/// position `k` on, each at depth `d`.
pub open spec fn dfs_list<T>(t: Tree<T>, parent: int, k: int, d: nat) -> Seq<(nat, T)>
    decreases t.data@.len() - parent, t.data@[parent].children@.len() - k,
    when t.edges_ok() && 0 <= parent < t.data@.len() && 0 <= k
{
    if k >= t.data@[parent].children@.len() {
        Seq::empty()
    } else {
        dfs_node(t, t.data@[parent].children@[k] as int, d) + dfs_list(t, parent, k + 1, d)
    }
}

/// The full traversal of the tree: empty when no root is set, else the
/// traversal from the root at depth 0.
pub open spec fn dfs<T>(t: Tree<T>) -> Seq<(nat, T)> {
    match t.root {
        None => Seq::empty(),
        Some(r) => dfs_node(t, r as int, 0),
    }
}

/// What remains to be visited given the iterator's explicit stack: the
/// traversal of the top entry, then of the one below, and so on.
pub open spec fn stack_rest<T>(t: Tree<T>, st: Seq<(usize, usize)>) -> Seq<(nat, T)>
    decreases st.len(),
{
    if st.len() == 0 {
        Seq::empty()
    } else {
        dfs_node(t, st.last().0 as int, st.last().1 as nat) + stack_rest(t, st.drop_last())
    }
}

/// A depth-first pre-order walk over the arena, yielding a reference to each
/// node's payload; the depth of the node most recently yielded is available
/// through `get_current_depth`.
pub struct IntoIter<'a, T> {
    pub tree: &'a Tree<T>,
    pub stack: Vec<(usize, usize)>,
    pub current_depth: usize,
}

impl<'a, T> IntoIter<'a, T> {
    /// The elements the walk has yet to yield, in order.
    pub open spec fn remaining(self) -> Seq<(nat, T)> {
        stack_rest(*self.tree, self.stack@)
    }

    /// The tree edges are sound and every stacked entry is a valid index
    /// whose recorded depth cannot exceed it (a path of strictly increasing
    /// indices from the root cannot be longer than its endpoint).
    pub open spec fn wf(self) -> bool {
        &&& self.tree.edges_ok()
        &&& forall|k: int|
            0 <= k < self.stack@.len() ==> ((#[trigger] self.stack@[k]).0 as int)
                < self.tree.data@.len() && self.stack@[k].1 <= self.stack@[k].0
    }
}

impl<'a, T> Tree<T> {
    /// Begins a depth-first pre-order walk of this tree.
    pub fn into_iter(&'a self) -> (it: IntoIter<'a, T>)
        requires
            self.edges_ok(),
        ensures
            it.wf(),
            it.tree == self,
            it.remaining() == dfs(*self),
            it.current_depth == 0,
    {
        let mut stack: Vec<(usize, usize)> = Vec::new();
        let current_depth: usize = 0;
        if let Some(root) = self.root {
            stack.push((root, current_depth));
            proof {
                assert(stack@.len() == 1);
                assert(stack@.last() == (root, 0usize));
                assert(stack@.drop_last() =~= Seq::<(usize, usize)>::empty());
                assert(stack_rest(*self, stack@.drop_last()) =~= Seq::<(nat, T)>::empty());
                assert(stack_rest(*self, stack@) =~= dfs_node(*self, root as int, 0 as nat)
                    + Seq::<(nat, T)>::empty());
                assert(dfs(*self) == dfs_node(*self, root as int, 0 as nat));
                assert(stack_rest(*self, stack@) =~= dfs(*self));
            }
        }
        IntoIter { tree: self, stack, current_depth }
    }
}

impl<'a, T> IntoIter<'a, T> {
    /// The depth of the node most recently yielded (0 before the first,
    /// and again after the walk is exhausted).
    pub fn get_current_depth(&self) -> (d: usize)
        ensures
            d == self.current_depth,
    {
        self.current_depth
    }

    /// Yields the next node of the traversal, or `None` once exhausted.
    #[verifier::loop_isolation(false)]
    pub fn next(&mut self) -> (r: Option<&'a T>)
        requires
            old(self).wf(),
        ensures
            final(self).wf(),
            final(self).tree == old(self).tree,
            final(self).current_depth as int <= final(self).tree.data@.len(),
            old(self).remaining().len() == 0 ==> r is None && final(self).remaining()
                == old(self).remaining() && final(self).current_depth == 0,
            old(self).remaining().len() > 0 ==> ({
                &&& r matches Some(x) && *x == old(self).remaining()[0].1
                &&& final(self).current_depth as nat == old(self).remaining()[0].0
                &&& final(self).remaining() == old(self).remaining().drop_first()
            }),
    {
        let tree = self.tree;
        if let Some((cur, depth)) = self.stack.pop() {
            proof {
                assert(old(self).stack@.drop_last().len() == old(self).stack@.len() - 1);
            }
            let ghost rest = self.stack@;
            let ghost cs = tree.data@[cur as int].children@;
            proof {
                assert(old(self).remaining() == dfs_node(*tree, cur as int, depth as nat)
                    + stack_rest(*tree, rest));
                assert(dfs_node(*tree, cur as int, depth as nat) == seq![
                    ((depth as nat), tree.data@[cur as int].data),
                ] + dfs_list(*tree, cur as int, 0, depth as nat + 1));
                assert(old(self).remaining()[0] == (
                    (depth as nat),
                    tree.data@[cur as int].data,
                ));
            }
            let node = tree.get_node(cur);
            let mut j: usize = node.children.len();
            while j > 0
                invariant
                    old(self).wf(),
                    self.tree == old(self).tree,
                    tree == old(self).tree,
                    (cur as int) < tree.data@.len(),
                    depth <= cur,
                    cs == tree.data@[cur as int].children@,
                    j <= cs.len(),
                    self.wf(),
                    stack_rest(*tree, self.stack@) == dfs_list(
                        *tree,
                        cur as int,
                        j as int,
                        depth as nat + 1,
                    ) + stack_rest(*tree, rest),
                decreases j,
            {
                j = j - 1;
                let child = node.children[j];
                proof {
                    assert(cs[j as int] == child);
                    assert(i_lt_child(*tree, cur as int, j as int));
                }
                let ghost prev = self.stack@;
                self.stack.push((child, depth + 1));
                proof {
                    assert(self.stack@.last() == (child, (depth + 1) as usize));
                    assert(self.stack@.drop_last() =~= prev);
                    assert(stack_rest(*tree, self.stack@) == dfs_node(
                        *tree,
                        child as int,
                        depth as nat + 1,
                    ) + (dfs_list(*tree, cur as int, j as int + 1, depth as nat + 1) + stack_rest(
                        *tree,
                        rest,
                    )));
                    assert(dfs_list(*tree, cur as int, j as int, depth as nat + 1) == dfs_node(
                        *tree,
                        child as int,
                        depth as nat + 1,
                    ) + dfs_list(*tree, cur as int, j as int + 1, depth as nat + 1));
                    assert(stack_rest(*tree, self.stack@) == dfs_list(
                        *tree,
                        cur as int,
                        j as int,
                        depth as nat + 1,
                    ) + stack_rest(*tree, rest)) by {
                        seq_add_assoc(
                            dfs_node(*tree, child as int, depth as nat + 1),
                            dfs_list(*tree, cur as int, j as int + 1, depth as nat + 1),
                            stack_rest(*tree, rest),
                        );
                    }
                }
            }
            self.current_depth = depth;
            proof {
                assert(self.remaining() == old(self).remaining().drop_first()) by {
                    assert(old(self).remaining().drop_first() == dfs_list(
                        *tree,
                        cur as int,
                        0,
                        depth as nat + 1,
                    ) + stack_rest(*tree, rest)) by {
                        seq_add_assoc(
                            seq![((depth as nat), tree.data@[cur as int].data)],
                            dfs_list(*tree, cur as int, 0, depth as nat + 1),
                            stack_rest(*tree, rest),
                        );
                        assert((seq![((depth as nat), tree.data@[cur as int].data)] + (dfs_list(
                            *tree,
                            cur as int,
                            0,
                            depth as nat + 1,
                        ) + stack_rest(*tree, rest))).drop_first() =~= dfs_list(
                            *tree,
                            cur as int,
                            0,
                            depth as nat + 1,
                        ) + stack_rest(*tree, rest));
                    }
                }
            }
            Some(&node.data)
        } else {
            self.current_depth = 0;
            None
        }
    }
}

/// A child's index is strictly above its parent's: stated as a spec function
/// so that a single assertion can bring the `edges_ok` fact into scope.
pub open spec fn i_lt_child<T>(t: Tree<T>, i: int, j: int) -> bool {
    i < (t.data@[i].children@[j] as int) < t.data@.len()
}

/// Concatenation of sequences is associative.
pub proof fn seq_add_assoc<A>(a: Seq<A>, b: Seq<A>, c: Seq<A>)
    ensures
        (a + b) + c == a + (b + c),
{
    assert((a + b) + c =~= a + (b + c));
}

} // verus!
