//! Node variants of the game tree and the byte layout they are accounted at.
//!
//! Every node variant shares a header: a `next_sibling` link closing a
//! null-terminated sibling list and a `first_child` link into the next
//! generation.  A `NodePtr` is an index into the arena's node table; the
//! variant of the pointee is known from context (all siblings under one
//! parent share a variant).  Byte accounting uses a `NodeLayout` describing
//! the dense two-word-header format each variant occupies.

use vstd::prelude::*;

use crate::volatile::Volatile;

verus! {

/// An untyped node handle: an index into the arena's node table.
#[derive(Clone, Copy, Debug, PartialEq, Eq, Structural)]
pub struct NodePtr(pub usize);

impl NodePtr {
    pub fn new(index: usize) -> (p: NodePtr)
        ensures
            p.0 == index,
    {
        NodePtr(index)
    }
}

/// The header common to every node variant.
#[derive(Clone, Copy, Debug, PartialEq, Eq, Structural)]
pub struct NodeRelationships {
    pub next_sibling: Option<NodePtr>,
    pub first_child: Option<NodePtr>,
}

/// The tree's single entry node: header only.
#[derive(Clone, Copy, Debug)]
pub struct RootNode {
    pub first_child: Volatile<Option<NodePtr>>,
}

/// A node for one action of the player to act.  `parameters` is the index
/// of this node's first slot in the arena's parameter table; the node owns
/// `parameter_count` consecutive slots from there.
#[derive(Clone, Copy, Debug)]
pub struct ActionNode<A> {
    pub next_sibling: Option<NodePtr>,
    pub first_child: Volatile<Option<NodePtr>>,
    pub parameters: usize,
    pub parameter_count: usize,
    pub action: A,
}

/// A node for one chance outcome.
#[derive(Clone, Copy, Debug)]
pub struct ChanceNode<C> {
    pub next_sibling: Option<NodePtr>,
    pub first_child: Volatile<Option<NodePtr>>,
    pub result: C,
}

/// One slot of the arena's node table.
#[derive(Clone, Copy, Debug)]
pub enum NodeSlot<A, C> {
    Root(RootNode),
    Action(ActionNode<A>),
    Chance(ChanceNode<C>),
}

impl<A, C> NodeSlot<A, C> {
    pub open spec fn spec_next_sibling(&self) -> Option<NodePtr> {
        match *self {
            NodeSlot::Root(_) => None,
            NodeSlot::Action(n) => n.next_sibling,
            NodeSlot::Chance(n) => n.next_sibling,
        }
    }

    pub open spec fn spec_first_child(&self) -> Option<NodePtr> {
        match *self {
            NodeSlot::Root(n) => n.first_child.spec_value(),
            NodeSlot::Action(n) => n.first_child.spec_value(),
            NodeSlot::Chance(n) => n.first_child.spec_value(),
        }
    }

    /// The shared header of this slot.
    pub fn relationships(&self) -> (r: NodeRelationships)
        ensures
            r.next_sibling == self.spec_next_sibling(),
            r.first_child == self.spec_first_child(),
    {
        match self {
            NodeSlot::Root(n) => NodeRelationships {
                next_sibling: None,
                first_child: n.first_child.read(),
            },
            NodeSlot::Action(n) => NodeRelationships {
                next_sibling: n.next_sibling,
                first_child: n.first_child.read(),
            },
            NodeSlot::Chance(n) => NodeRelationships {
                next_sibling: n.next_sibling,
                first_child: n.first_child.read(),
            },
        }
    }
}

/// Both links of slot `i` stay inside the table and point strictly upward:
/// siblings and children are always allocated after their predecessor, so
/// every walk down a link terminates.
pub open spec fn link_ok<A, C>(nodes: Seq<NodeSlot<A, C>>, i: int) -> bool {
    &&& (match nodes[i].spec_next_sibling() {
        Some(p) => i < p.0 < nodes.len(),
        None => true,
    })
    &&& (match nodes[i].spec_first_child() {
        Some(p) => i < p.0 < nodes.len(),
        None => true,
    })
}

pub open spec fn links_ascending<A, C>(nodes: Seq<NodeSlot<A, C>>) -> bool {
    forall|i: int| #![trigger nodes[i]] 0 <= i < nodes.len() ==> link_ok(nodes, i)
}

/// The pointers of the sibling list starting at `cur`, in order.
pub open spec fn sibling_chain<A, C>(nodes: Seq<NodeSlot<A, C>>, cur: Option<NodePtr>) -> Seq<
    NodePtr,
>
    decreases (match cur {
        Some(p) => nodes.len() - p.0,
        None => 0int,
    }),
    when (match cur {
        Some(p) => p.0 < nodes.len() && links_ascending(nodes),
        None => true,
    })
{
    match cur {
        None => Seq::empty(),
        Some(p) => seq![p] + sibling_chain(nodes, nodes[p.0 as int].spec_next_sibling()),
    }
}

/// Walking one link down a sibling chain lands on the next chain entry.
pub proof fn lemma_chain_index<A, C>(nodes: Seq<NodeSlot<A, C>>, start: Option<NodePtr>, m: int)
    requires
        links_ascending(nodes),
        (match start {
            Some(p) => p.0 < nodes.len(),
            None => true,
        }),
        0 <= m < sibling_chain(nodes, start).len(),
    ensures
        sibling_chain(nodes, start)[m].0 < nodes.len(),
        nodes[sibling_chain(nodes, start)[m].0 as int].spec_next_sibling() == (if m + 1
            < sibling_chain(nodes, start).len() {
            Some(sibling_chain(nodes, start)[m + 1])
        } else {
            None::<NodePtr>
        }),
        m == 0 ==> start == Some(sibling_chain(nodes, start)[0]),
    decreases (match start {
        Some(p) => nodes.len() - p.0,
        None => 0int,
    }),
{
    let chain = sibling_chain(nodes, start);
    match start {
        None => {},
        Some(p) => {
            assert(link_ok(nodes, p.0 as int));
            let next = nodes[p.0 as int].spec_next_sibling();
            let tail = sibling_chain(nodes, next);
            assert(chain == seq![p] + tail);
            if m == 0 {
                if tail.len() > 0 {
                    lemma_chain_index(nodes, next, 0);
                    assert(chain[1] == tail[0]);
                }
            } else {
                lemma_chain_index(nodes, next, m - 1);
                assert(chain[m] == tail[m - 1]);
                if m + 1 < chain.len() {
                    assert(chain[m + 1] == tail[m]);
                }
            }
        },
    }
}

/// A group of `n` slots from `base` linked consecutively, the last link
/// null: its sibling chain from member `j` is exactly the members from `j`
/// on, in order.
pub proof fn lemma_chain_of_group<A, C>(nodes: Seq<NodeSlot<A, C>>, base: int, n: int, j: int)
    requires
        links_ascending(nodes),
        0 <= base,
        base + n <= nodes.len(),
        base + n <= usize::MAX,
        0 <= j <= n,
        forall|m: int| 0 <= m < n ==> #[trigger] nodes[base + m].spec_next_sibling() == (if m + 1
            < n {
            Some(NodePtr((base + m + 1) as usize))
        } else {
            None::<NodePtr>
        }),
    ensures
        sibling_chain(
            nodes,
            if j < n {
                Some(NodePtr((base + j) as usize))
            } else {
                None::<NodePtr>
            },
        ) =~= Seq::new((n - j) as nat, |m: int| NodePtr((base + j + m) as usize)),
    decreases n - j,
{
    if j < n {
        lemma_chain_of_group(nodes, base, n, j + 1);
        let p = NodePtr((base + j) as usize);
        assert(nodes[base + j].spec_next_sibling() == (if j + 1 < n {
            Some(NodePtr((base + j + 1) as usize))
        } else {
            None::<NodePtr>
        }));
        let tail = sibling_chain(nodes, nodes[p.0 as int].spec_next_sibling());
        assert(sibling_chain(nodes, Some(p)) == seq![p] + tail);
        assert(tail =~= Seq::new((n - j - 1) as nat, |m: int| NodePtr((base + j + 1 + m) as usize)));
        assert forall|m: int| 0 <= m < n - j implies (seq![p] + tail)[m] == NodePtr(
            (base + j + m) as usize,
        ) by {
            if m > 0 {
                assert(tail[m - 1] == NodePtr((base + j + 1 + (m - 1)) as usize));
            }
        }
    } else {
        assert(sibling_chain(nodes, None::<NodePtr>) =~= Seq::<NodePtr>::empty());
    }
}

/// Walks a sibling list from a starting node.
pub struct NodePtrIterator {
    pub next_node: Option<NodePtr>,
}

impl NodePtrIterator {
    pub fn new(node: Option<NodePtr>) -> (it: NodePtrIterator)
        ensures
            it.next_node == node,
    {
        NodePtrIterator { next_node: node }
    }
}

/// Size and alignment of one stored value, in bytes.
#[derive(Clone, Copy, Debug, PartialEq, Eq, Structural)]
pub struct SlotLayout {
    pub size: usize,
    pub align: usize,
}

pub open spec fn slot_layout_wf(l: SlotLayout) -> bool {
    &&& 1 <= l.align <= 65536
    &&& 1 <= l.size <= 268435456
}

/// Byte layout of the three node variants and of one parameter slot.
#[derive(Clone, Copy, Debug, PartialEq, Eq, Structural)]
pub struct NodeLayout {
    pub root: SlotLayout,
    pub action: SlotLayout,
    pub chance: SlotLayout,
    pub parameter: SlotLayout,
}

pub open spec fn node_layout_wf(l: NodeLayout) -> bool {
    &&& slot_layout_wf(l.root)
    &&& slot_layout_wf(l.action)
    &&& slot_layout_wf(l.chance)
    &&& slot_layout_wf(l.parameter)
}

/// `n` rounded up to the next multiple of `align`.
pub open spec fn round_up(n: int, align: int) -> int
    recommends
        align >= 1,
{
    n + crate::arena::pad_for(n, align)
}

/// Size of one pointer word in the dense node format.
pub const PTR_BYTES: usize = 8;

fn round_up_exec(n: usize, align: usize) -> (r: usize)
    requires
        align >= 1,
        n + align <= usize::MAX,
    ensures
        r == round_up(n as int, align as int),
{
    let rem = n % align;
    if rem == 0 {
        n
    } else {
        n + (align - rem)
    }
}

fn max_usize(a: usize, b: usize) -> (r: usize)
    ensures
        r == if a >= b {
            a as int
        } else {
            b as int
        },
{
    if a >= b {
        a
    } else {
        b
    }
}

/// The byte layout of trees whose nodes use the dense format: every variant
/// starts with a two-word header (sibling and child links); an action node
/// adds a parameter word; the payload follows, and the whole node is padded
/// to its alignment, which is at least a word's.
pub fn node_layout(
    action_payload: SlotLayout,
    chance_payload: SlotLayout,
    parameter: SlotLayout,
) -> (l: NodeLayout)
    requires
        action_payload.align >= 1,
        chance_payload.align >= 1,
        action_payload.size <= 65536,
        chance_payload.size <= 65536,
        action_payload.align <= 65536,
        chance_payload.align <= 65536,
        slot_layout_wf(parameter),
    ensures
        node_layout_wf(l),
        l.root.size == 2 * PTR_BYTES && l.root.align == PTR_BYTES,
        l.action.align == if action_payload.align >= PTR_BYTES {
            action_payload.align as int
        } else {
            PTR_BYTES as int
        },
        l.action.size == round_up(3 * PTR_BYTES + action_payload.size, l.action.align as int),
        l.chance.align == if chance_payload.align >= PTR_BYTES {
            chance_payload.align as int
        } else {
            PTR_BYTES as int
        },
        l.chance.size == round_up(2 * PTR_BYTES + chance_payload.size, l.chance.align as int),
        l.parameter == parameter,
{
    let action_align = max_usize(PTR_BYTES, action_payload.align);
    let chance_align = max_usize(PTR_BYTES, chance_payload.align);
    NodeLayout {
        root: SlotLayout { size: 2 * PTR_BYTES, align: PTR_BYTES },
        action: SlotLayout {
            size: round_up_exec(3 * PTR_BYTES + action_payload.size, action_align),
            align: action_align,
        },
        chance: SlotLayout {
            size: round_up_exec(2 * PTR_BYTES + chance_payload.size, chance_align),
            align: chance_align,
        },
        parameter,
    }
}

} // verus!
