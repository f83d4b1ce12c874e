//! The parse tree: an arena of nodes linked by indices.
//!
//! Nodes are appended in reduction order; attaching a child sets its parent
//! link and appends it to the parent's child list.  No node is ever removed.

use vstd::prelude::*;
use vstd::string::StringExecFns;
use crate::symbol::{Symbol, SymbolV};
use crate::text::{push_str, rep_str};

verus! {

/// Index of a node in the arena.
pub type NodeId = usize;

/// Payload of a node: the grammar symbol it stands for.
pub struct NodeData {
    pub symbol: Symbol,
}

impl NodeData {
    pub fn new(symbol: Symbol) -> (r: NodeData)
        ensures
            r.symbol@ == symbol@,
    {
        NodeData { symbol }
    }
}

/// Mathematical value of a [`Node`].
#[verifier::ext_equal]
pub struct NodeV {
    pub id: int,
    pub parent: Option<int>,
    pub children: Seq<int>,
    pub symbol: SymbolV,
}

/// An arena node: its own id, the optional parent, the ordered children.
pub struct Node {
    pub id: NodeId,
    pub parent: Option<NodeId>,
    pub children: Vec<NodeId>,
    pub data: NodeData,
}

impl View for Node {
    type V = NodeV;

    open spec fn view(&self) -> NodeV {
        NodeV {
            id: self.id as int,
            parent: match self.parent {
                Option::None => Option::None,
                Option::Some(p) => Option::Some(p as int),
            },
            children: self.children@.map_values(|c: NodeId| c as int),
            symbol: self.data.symbol@,
        }
    }
}

impl Node {
    /// A fresh node: no parent, no children.
    pub fn new(id: NodeId, data: NodeData) -> (r: Node)
        ensures
            r@ == (NodeV {
                id: id as int,
                parent: Option::None,
                children: Seq::empty(),
                symbol: data.symbol@,
            }),
    {
        let r = Node { id, parent: Option::None, children: Vec::new(), data };
        proof {
            assert(r@.children =~= Seq::<int>::empty());
            assert(r@ =~= (NodeV {
                id: id as int,
                parent: Option::None,
                children: Seq::empty(),
                symbol: r.data.symbol@,
            }));
        }
        r
    }
}

/// Mathematical value of a [`Tree`].
#[verifier::ext_equal]
pub struct TreeV {
    pub nodes: Seq<NodeV>,
    pub root: Option<int>,
}

/// Every node knows its position, every link stays inside the arena, and
/// children precede their parent (they were created earlier).
pub open spec fn tree_wf(t: TreeV) -> bool {
    &&& forall|i: int| 0 <= i < t.nodes.len() ==> (#[trigger] t.nodes[i]).id == i
    &&& forall|i: int, c: int|
        0 <= i < t.nodes.len() && #[trigger] t.nodes[i].children.contains(c) ==> 0 <= c < i
    &&& match t.root {
        Option::None => true,
        Option::Some(r) => 0 <= r < t.nodes.len(),
    }
}

/// The arena tree built during a parse.
pub struct Tree {
    pub nodes: Vec<Node>,
    pub root: Option<NodeId>,
}

impl View for Tree {
    type V = TreeV;

    open spec fn view(&self) -> TreeV {
        TreeV {
            nodes: self.nodes@.map_values(|n: Node| n@),
            root: match self.root {
                Option::None => Option::None,
                Option::Some(r) => Option::Some(r as int),
            },
        }
    }
}

impl Tree {
    /// An empty tree: no nodes, no root.
    pub fn new() -> (r: Tree)
        ensures
            r@.nodes == Seq::<NodeV>::empty(),
            r@.root is None,
    {
        let r = Tree { nodes: Vec::new(), root: Option::None };
        proof {
            assert(r@.nodes =~= Seq::<NodeV>::empty());
        }
        r
    }

    /// The number of nodes in the arena.
    pub fn len(&self) -> (r: usize)
        ensures
            r == self@.nodes.len(),
    {
        self.nodes.len()
    }

    /// Set the root.
    pub fn set_root(&mut self, new_root: NodeId)
        ensures
            final(self)@.nodes == old(self)@.nodes,
            final(self)@.root == Option::Some(new_root as int),
    {
        self.root = Option::Some(new_root);
    }

    /// Append a fresh node for `data`; its id is returned.
    pub fn new_node(&mut self, data: NodeData) -> (r: NodeId)
        ensures
            r == old(self)@.nodes.len(),
            final(self)@.root == old(self)@.root,
            final(self)@.nodes == old(self)@.nodes.push(
                NodeV {
                    id: old(self)@.nodes.len() as int,
                    parent: Option::None,
                    children: Seq::empty(),
                    symbol: data.symbol@,
                },
            ),
    {
        let id = self.nodes.len();
        let ghost sym = data.symbol@;
        let node = Node::new(id, data);
        self.nodes.push(node);
        proof {
            assert(self@.nodes =~= old(self)@.nodes.push(
                NodeV {
                    id: id as int,
                    parent: Option::None,
                    children: Seq::empty(),
                    symbol: sym,
                },
            ));
        }
        id
    }

    /// Attach `child_id` under `parent_id`: the child's parent is set and
    /// the child is appended to the parent's child list.
    pub fn append(&mut self, parent_id: NodeId, child_id: NodeId)
        requires
            parent_id < old(self)@.nodes.len(),
            child_id < old(self)@.nodes.len(),
        ensures
            final(self)@.root == old(self)@.root,
            final(self)@.nodes == tree_append(old(self)@.nodes, parent_id as int, child_id as int),
    {
        let ghost oldnodes = self@.nodes;
        let mut child = self.nodes.remove(child_id);
        child.parent = Option::Some(parent_id);
        self.nodes.insert(child_id, child);
        proof {
            assert(self@.nodes =~= oldnodes.update(
                child_id as int,
                NodeV { parent: Option::Some(parent_id as int), ..oldnodes[child_id as int] },
            ));
        }
        let ghost mid = self@.nodes;
        let mut parent = self.nodes.remove(parent_id);
        let ghost oldchildren = parent.children@;
        parent.children.push(child_id);
        self.nodes.insert(parent_id, parent);
        proof {
            assert(oldchildren.push(child_id).map_values(|c: NodeId| c as int)
                =~= oldchildren.map_values(|c: NodeId| c as int).push(child_id as int));
            assert(self@.nodes =~~= mid.update(
                parent_id as int,
                NodeV {
                    children: mid[parent_id as int].children.push(child_id as int),
                    ..mid[parent_id as int]
                },
            ));
        }
    }
}

/// What [`Tree::append`] does to the node list.
pub open spec fn tree_append(nodes: Seq<NodeV>, parent: int, child: int) -> Seq<NodeV> {
    let mid = nodes.update(child, NodeV { parent: Option::Some(parent), ..nodes[child] });
    mid.update(parent, NodeV { children: mid[parent].children.push(child), ..mid[parent] })
}


/// The preorder line of node `x` and, below it, its subtree: four spaces of
/// indent per level and a `|-- ` marker before the symbol.
pub open spec fn preorder_str(t: TreeV, x: int, level: int) -> Seq<char>
    decreases x, 1int, 0int,
{
    if !(0 <= x < t.nodes.len()) {
        Seq::empty()
    } else {
        rep_str(level, "    "@) + "|-- "@ + t.nodes[x].symbol.name() + "\n"@ + preorder_kids(
            t,
            t.nodes[x].children,
            level + 1,
            x,
        )
    }
}

/// The subtrees of the listed children, left to right; children are always
/// below their parent's index `b`.
pub open spec fn preorder_kids(t: TreeV, cs: Seq<int>, level: int, b: int) -> Seq<char>
    decreases b, 0int, cs.len(),
{
    if cs.len() == 0 {
        Seq::empty()
    } else if 0 <= cs[0] < b {
        preorder_str(t, cs[0], level) + preorder_kids(t, cs.drop_first(), level, b)
    } else {
        preorder_kids(t, cs.drop_first(), level, b)
    }
}

impl Tree {
    /// The subtree under `x` as indented preorder text.
    pub fn preorder_walk(&self, x: NodeId, level: usize) -> (r: String)
        requires
            tree_wf(self@),
            x < self@.nodes.len(),
            level as int + x as int <= usize::MAX as int,
        ensures
            r@ == preorder_str(self@, x as int, level as int),
        decreases x as int, 1int, 0int,
    {
        let mut s = String::new();
        let mut l: usize = 0;
        proof {
            assert(s@ =~= rep_str(0, "    "@));
        }
        while l < level
            invariant
                0 <= l <= level,
                s@ == rep_str(l as int, "    "@),
            decreases level - l,
        {
            s.append("    ");
            proof {
                assert(s@ =~= rep_str(l + 1, "    "@));
            }
            l += 1;
        }
        s.append("|-- ");
        s.append(self.nodes[x].data.symbol.as_str());
        s.append("\n");
        let ghost line = rep_str(level as int, "    "@) + "|-- "@ + self@.nodes[
            x as int].symbol.name() + "\n"@;
        let ghost cs = self@.nodes[x as int].children;
        proof {
            assert(s@ =~= line);
            assert(cs.skip(0) =~= cs);
        }
        let n = self.nodes[x].children.len();
        let mut k: usize = 0;
        while k < n
            invariant
                0 <= k <= n,
                tree_wf(self@),
                x < self@.nodes.len(),
                level as int + x as int <= usize::MAX as int,
                n == self.nodes@[x as int].children@.len(),
                cs == self@.nodes[x as int].children,
                line == rep_str(level as int, "    "@) + "|-- "@ + self@.nodes[
                    x as int].symbol.name() + "\n"@,
                s@ + preorder_kids(self@, cs.skip(k as int), level as int + 1, x as int) == line
                    + preorder_kids(self@, cs, level as int + 1, x as int),
            decreases n - k,
        {
            let c = self.nodes[x].children[k];
            proof {
                assert(cs[k as int] == c as int);
                assert(self@.nodes[x as int].children.contains(cs[k as int]));
                assert(0 <= (c as int) && (c as int) < x as int);
                assert(cs.skip(k as int)[0] == cs[k as int]);
                assert(cs.skip(k as int).drop_first() =~= cs.skip(k + 1));
            }
            let sub = self.preorder_walk(c, level + 1);
            push_str(&mut s, sub.as_str());
            k += 1;
        }
        proof {
            assert(cs.skip(n as int) =~= Seq::<int>::empty());
            assert(preorder_kids(self@, cs.skip(n as int), level as int + 1, x as int)
                =~= Seq::<char>::empty());
            assert(s@ =~= s@ + Seq::<char>::empty());
            assert(s@ =~= preorder_str(self@, x as int, level as int));
        }
        s
    }

    /// The tree as indented preorder text; empty when no root is set.
    pub fn print(&self) -> (r: String)
        requires
            tree_wf(self@),
        ensures
            r@ == match self@.root {
                Option::None => Seq::<char>::empty(),
                Option::Some(root) => preorder_str(self@, root, 0),
            },
    {
        match self.root {
            Option::None => {
                let r = String::new();
                proof {
                    assert(r@ =~= Seq::<char>::empty());
                }
                r
            },
            Option::Some(root) => self.preorder_walk(root, 0),
        }
    }
}

} // verus!
