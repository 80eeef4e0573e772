//! The arena-backed tree store and its allocator.
//!
//! A `NodeArena` owns the node table, the parameter table and the byte
//! account of one tree.  Sibling groups are allocated as consecutive slots
//! whose `next_sibling` links run forward through the group; an action
//! group's parameter block follows its nodes, and child `j` owns the `K`
//! slots starting at `block + j * K`.  `allocate_tree` drives the game
//! recursively, depth-first in event order, and its byte account equals the
//! estimator's, computed by the same `tree_account` function.

use vstd::prelude::*;

use crate::arena::{alloc_end, lemma_alloc_end_grows, lemma_sat_alloc_end_eq, pad_for, sat_add, sat_alloc_end, Arena, Error};
use crate::estimator::{children_account, group_account, tree_account, TreeAccount};
use crate::game::{Event, Game, Parameter, ParameterMapping, Stage};
use crate::node::{
    link_ok,
    links_ascending,
    node_layout_wf,
    ActionNode,
    ChanceNode,
    NodeLayout,
    NodePtr,
    NodePtrIterator,
    NodeSlot,
    RootNode,
};
use crate::volatile::Volatile;

verus! {

/// What a `next_sibling` link may join: two action nodes sharing one
/// parameter block stride, or two chance nodes.  Mixed sibling lists are
/// forbidden.
pub open spec fn sibling_compatible<A, C>(s: NodeSlot<A, C>, t: NodeSlot<A, C>) -> bool {
    match (s, t) {
        (NodeSlot::Action(a), NodeSlot::Action(b)) => {
            &&& b.parameter_count == a.parameter_count
            &&& b.parameters == a.parameters + a.parameter_count
        },
        (NodeSlot::Chance(_), NodeSlot::Chance(_)) => true,
        _ => false,
    }
}

/// Slot `i` is an action node carrying exactly these fields.
pub open spec fn slot_is_action_with<A, C>(
    s: NodeSlot<A, C>,
    action: A,
    parameters: int,
    parameter_count: int,
    next_sibling: Option<NodePtr>,
) -> bool {
    match s {
        NodeSlot::Action(a) => {
            &&& a.action == action
            &&& a.parameters == parameters
            &&& a.parameter_count == parameter_count
            &&& a.next_sibling == next_sibling
            &&& a.first_child.spec_value() is None
        },
        _ => false,
    }
}

/// Slot `i` is a chance node carrying exactly these fields.
pub open spec fn slot_is_chance_with<A, C>(
    s: NodeSlot<A, C>,
    result: C,
    next_sibling: Option<NodePtr>,
) -> bool {
    match s {
        NodeSlot::Chance(c) => {
            &&& c.result == result
            &&& c.next_sibling == next_sibling
            &&& c.first_child.spec_value() is None
        },
        _ => false,
    }
}

/// The slot differs from `t` at most in its child link: same variant,
/// same sibling link, same payload.
pub open spec fn same_except_first_child<A, C>(s: NodeSlot<A, C>, t: NodeSlot<A, C>) -> bool {
    match (s, t) {
        (NodeSlot::Root(_), NodeSlot::Root(_)) => true,
        (NodeSlot::Action(a), NodeSlot::Action(b)) => {
            &&& a.next_sibling == b.next_sibling
            &&& a.parameters == b.parameters
            &&& a.parameter_count == b.parameter_count
            &&& a.action == b.action
        },
        (NodeSlot::Chance(a), NodeSlot::Chance(b)) => {
            &&& a.next_sibling == b.next_sibling
            &&& a.result == b.result
        },
        _ => false,
    }
}

/// The slot differs from `t` at most in its sibling link: same variant,
/// same child link, same payload.
pub open spec fn same_except_next_sibling<A, C>(s: NodeSlot<A, C>, t: NodeSlot<A, C>) -> bool {
    match (s, t) {
        (NodeSlot::Root(a), NodeSlot::Root(b)) => a.first_child == b.first_child,
        (NodeSlot::Action(a), NodeSlot::Action(b)) => {
            &&& a.first_child == b.first_child
            &&& a.parameters == b.parameters
            &&& a.parameter_count == b.parameter_count
            &&& a.action == b.action
        },
        (NodeSlot::Chance(a), NodeSlot::Chance(b)) => {
            &&& a.first_child == b.first_child
            &&& a.result == b.result
        },
        _ => false,
    }
}

/// The slot materializes the event: an action node carrying the action,
/// or a chance node carrying the outcome.
pub open spec fn slot_realizes_event<A, C>(s: NodeSlot<A, C>, e: Event<A, C>) -> bool {
    match (s, e) {
        (NodeSlot::Action(a), Event::Action(x)) => a.action == x,
        (NodeSlot::Chance(c), Event::Chance(x)) => c.result == x,
        _ => false,
    }
}

/// Well-formedness of one slot: ascending in-bounds links, an in-range
/// parameter block of at least one slot for action nodes, and a
/// variant-homogeneous sibling link.
pub open spec fn slot_ok<A, C>(nodes: Seq<NodeSlot<A, C>>, params_len: int, i: int) -> bool {
    &&& link_ok(nodes, i)
    &&& (match nodes[i] {
        NodeSlot::Action(a) => a.parameter_count >= 1 && a.parameters + a.parameter_count
            <= params_len,
        _ => true,
    })
    &&& (match nodes[i].spec_next_sibling() {
        Some(p) => sibling_compatible(nodes[i], nodes[p.0 as int]),
        None => true,
    })
}

/// The arena of one tree: node slots, parameter slots, their byte offsets
/// and the byte account of the dense layout they stand for.
pub struct NodeArena<A, C, P> {
    layout: NodeLayout,
    bytes: Arena,
    action: usize,
    chance: usize,
    nodes: Vec<NodeSlot<A, C>>,
    offsets: Vec<usize>,
    parameters: Vec<P>,
}

impl<A: Copy, C: Copy, P> NodeArena<A, C, P> {
    pub closed spec fn spec_nodes(&self) -> Seq<NodeSlot<A, C>> {
        self.nodes@
    }

    pub closed spec fn spec_offsets(&self) -> Seq<usize> {
        self.offsets@
    }

    pub closed spec fn spec_params(&self) -> Seq<P> {
        self.parameters@
    }

    pub closed spec fn spec_layout(&self) -> NodeLayout {
        self.layout
    }

    pub closed spec fn spec_capacity(&self) -> int {
        self.bytes.spec_capacity()
    }

    /// The running account: action nodes, chance nodes, parameter slots,
    /// bytes used.
    pub closed spec fn spec_account(&self) -> TreeAccount {
        (
            self.action as int,
            self.chance as int,
            self.parameters@.len() as int,
            self.bytes.spec_len(),
        )
    }

    pub open spec fn wf(&self) -> bool {
        &&& node_layout_wf(self.spec_layout())
        &&& self.spec_offsets().len() == self.spec_nodes().len()
        &&& links_ascending(self.spec_nodes())
        &&& forall|i: int|
            #![trigger self.spec_nodes()[i]]
            0 <= i < self.spec_nodes().len() ==> slot_ok(
                self.spec_nodes(),
                self.spec_params().len() as int,
                i,
            )
        &&& self.spec_nodes().len() <= self.spec_account().3
        &&& self.spec_params().len() <= self.spec_account().3
        &&& 0 <= self.spec_account().0
        &&& 0 <= self.spec_account().1
        &&& 0 <= self.spec_account().3 <= self.spec_capacity() <= usize::MAX
    }

    /// An empty arena for a tree of at most `capacity_bytes` bytes.
    pub fn new(layout: NodeLayout, capacity_bytes: usize) -> (arena: NodeArena<A, C, P>)
        requires
            node_layout_wf(layout),
        ensures
            arena.wf(),
            arena.spec_layout() == layout,
            arena.spec_capacity() == capacity_bytes,
            arena.spec_account() == (0int, 0int, 0int, 0int),
            arena.spec_nodes().len() == 0,
            arena.spec_params().len() == 0,
    {
        NodeArena {
            layout,
            bytes: Arena::with_capacity(capacity_bytes),
            action: 0,
            chance: 0,
            nodes: Vec::new(),
            offsets: Vec::new(),
            parameters: Vec::new(),
        }
    }

    pub fn capacity(&self) -> (c: usize)
        ensures
            c == self.spec_capacity(),
    {
        self.bytes.capacity()
    }

    /// Bytes used by the dense layout, padding included.
    pub fn len(&self) -> (l: usize)
        ensures
            l == self.spec_account().3,
    {
        self.bytes.len()
    }

    pub fn node_count(&self) -> (n: usize)
        ensures
            n == self.spec_nodes().len(),
    {
        self.nodes.len()
    }

    pub fn parameter_count(&self) -> (n: usize)
        ensures
            n == self.spec_params().len(),
    {
        self.parameters.len()
    }

    /// The slot a pointer designates.
    pub fn slot(&self, ptr: NodePtr) -> (s: &NodeSlot<A, C>)
        requires
            ptr.0 < self.spec_nodes().len(),
        ensures
            *s == self.spec_nodes()[ptr.0 as int],
    {
        &self.nodes[ptr.0]
    }

    /// Byte offset of a node in the dense layout.
    pub fn offset_of(&self, ptr: NodePtr) -> (off: usize)
        requires
            self.wf(),
            ptr.0 < self.spec_nodes().len(),
        ensures
            off == self.spec_offsets()[ptr.0 as int],
    {
        self.offsets[ptr.0]
    }

    /// An iterator over the children of `ptr`.
    pub fn children(&self, ptr: NodePtr) -> (it: NodePtrIterator)
        requires
            ptr.0 < self.spec_nodes().len(),
        ensures
            it.next_node == self.spec_nodes()[ptr.0 as int].spec_first_child(),
    {
        NodePtrIterator::new(self.slot(ptr).relationships().first_child)
    }

    /// Prepends `child` as the first child of `parent`: the parent's old
    /// first child, if any, becomes the new child's sibling, and the
    /// parent's child link is then published.  An existing first child
    /// must sit after `child` and be sibling-compatible with it.
    pub fn add_child(&mut self, parent: NodePtr, child: NodePtr)
        requires
            old(self).wf(),
            parent.0 < child.0 < old(self).spec_nodes().len(),
            (match old(self).spec_nodes()[parent.0 as int].spec_first_child() {
                Some(f) => child.0 < f.0 && sibling_compatible(
                    old(self).spec_nodes()[child.0 as int],
                    old(self).spec_nodes()[f.0 as int],
                ),
                None => true,
            }),
        ensures
            final(self).wf(),
            final(self).spec_layout() == old(self).spec_layout(),
            final(self).spec_capacity() == old(self).spec_capacity(),
            final(self).spec_account() == old(self).spec_account(),
            final(self).spec_offsets() == old(self).spec_offsets(),
            final(self).spec_params() == old(self).spec_params(),
            final(self).spec_nodes().len() == old(self).spec_nodes().len(),
            forall|j: int|
                0 <= j < old(self).spec_nodes().len() && j != parent.0 && j != child.0
                    ==> final(self).spec_nodes()[j] == old(self).spec_nodes()[j],
            final(self).spec_nodes()[parent.0 as int].spec_first_child() == Some(child),
            final(self).spec_nodes()[parent.0 as int].spec_next_sibling() == old(self).spec_nodes()[parent.0 as int].spec_next_sibling(),
            same_except_first_child(
                old(self).spec_nodes()[parent.0 as int],
                final(self).spec_nodes()[parent.0 as int],
            ),
            (final(self).spec_nodes()[parent.0 as int] is Action <==> old(self).spec_nodes()[parent.0 as int] is Action),
            (final(self).spec_nodes()[parent.0 as int] is Root <==> old(self).spec_nodes()[parent.0 as int] is Root),
            (match old(self).spec_nodes()[parent.0 as int].spec_first_child() {
                Some(f) => same_except_next_sibling(
                    old(self).spec_nodes()[child.0 as int],
                    final(self).spec_nodes()[child.0 as int],
                ) && final(self).spec_nodes()[child.0 as int].spec_next_sibling() == Some(f),
                None => final(self).spec_nodes()[child.0 as int] == old(self).spec_nodes()[child.0 as int],
            }),
    {
        let sibling = self.slot(parent).relationships().first_child;
        if let Some(f) = sibling {
            let relinked = match &self.nodes[child.0] {
                NodeSlot::Root(n) => {
                    proof {
                        assert(false);
                    }
                    NodeSlot::Root(RootNode { first_child: n.first_child })
                },
                NodeSlot::Action(n) => NodeSlot::Action(ActionNode {
                    next_sibling: Some(f),
                    first_child: n.first_child,
                    parameters: n.parameters,
                    parameter_count: n.parameter_count,
                    action: n.action,
                }),
                NodeSlot::Chance(n) => NodeSlot::Chance(ChanceNode {
                    next_sibling: Some(f),
                    first_child: n.first_child,
                    result: n.result,
                }),
            };
            self.nodes[child.0] = relinked;
        }
        let updated = match &self.nodes[parent.0] {
            NodeSlot::Root(n) => NodeSlot::Root(RootNode { first_child: Volatile::new(
                Some(child),
            ) }),
            NodeSlot::Action(n) => NodeSlot::Action(ActionNode {
                next_sibling: n.next_sibling,
                first_child: Volatile::new(Some(child)),
                parameters: n.parameters,
                parameter_count: n.parameter_count,
                action: n.action,
            }),
            NodeSlot::Chance(n) => NodeSlot::Chance(ChanceNode {
                next_sibling: n.next_sibling,
                first_child: Volatile::new(Some(child)),
                result: n.result,
            }),
        };
        self.nodes[parent.0] = updated;
        proof {
            let nodes = self.spec_nodes();
            let plen = self.spec_params().len() as int;
            assert forall|i: int| 0 <= i < nodes.len() implies #[trigger] slot_ok(
                nodes,
                plen,
                i,
            ) by {
                assert(slot_ok(old(self).spec_nodes(), plen, i));
                assert(link_ok(old(self).spec_nodes(), i));
                match old(self).spec_nodes()[i].spec_next_sibling() {
                    Some(p) => {
                        assert(slot_ok(old(self).spec_nodes(), plen, p.0 as int));
                    },
                    None => {},
                }
            }
            assert(links_ascending(nodes)) by {
                assert forall|i: int| 0 <= i < nodes.len() implies #[trigger] link_ok(
                    nodes,
                    i,
                ) by {
                    assert(link_ok(old(self).spec_nodes(), i));
                }
            }
        }
    }
}

impl<A: Copy, C: Copy, P: Copy> NodeArena<A, C, P> {
    /// Reads parameter slot `i`.
    pub fn param(&self, i: usize) -> (p: P)
        requires
            i < self.spec_params().len(),
        ensures
            p == self.spec_params()[i as int],
    {
        self.parameters[i]
    }

    /// Overwrites parameter slot `i`.
    pub fn set_param(&mut self, i: usize, value: P)
        requires
            old(self).wf(),
            i < old(self).spec_params().len(),
        ensures
            final(self).wf(),
            final(self).spec_params() == old(self).spec_params().update(i as int, value),
            final(self).spec_nodes() == old(self).spec_nodes(),
            final(self).spec_offsets() == old(self).spec_offsets(),
            final(self).spec_layout() == old(self).spec_layout(),
            final(self).spec_capacity() == old(self).spec_capacity(),
            final(self).spec_account() == old(self).spec_account(),
    {
        self.parameters[i] = value;
        proof {
            assert forall|j: int| 0 <= j < self.spec_nodes().len() implies #[trigger] slot_ok(
                self.spec_nodes(),
                self.spec_params().len() as int,
                j,
            ) by {
                assert(slot_ok(
                    old(self).spec_nodes(),
                    old(self).spec_params().len() as int,
                    j,
                ));
            }
        }
    }
}

impl NodePtrIterator {
    /// Yields the current node and steps to its sibling.
    pub fn next<A: Copy, C: Copy, P>(&mut self, arena: &NodeArena<A, C, P>) -> (r: Option<
        NodePtr,
    >)
        requires
            arena.wf(),
            old(self).next_node matches Some(p) ==> p.0 < arena.spec_nodes().len(),
        ensures
            r == old(self).next_node,
            final(self).next_node == (match r {
                Some(p) => arena.spec_nodes()[p.0 as int].spec_next_sibling(),
                None => None::<NodePtr>,
            }),
            final(self).next_node matches Some(q) ==> q.0 < arena.spec_nodes().len() && (
            match r {
                Some(p) => p.0 < q.0,
                None => false,
            }),
    {
        match self.next_node {
            Some(p) => {
                proof {
                    assert(link_ok(arena.spec_nodes(), p.0 as int));
                }
                self.next_node = arena.slot(p).relationships().next_sibling;
                Some(p)
            },
            None => None,
        }
    }
}

/// The storage-layout contract a successful action-group allocation
/// establishes: `n` consecutive action slots from `first`, linked in order
/// and null-terminated; the `n * k` parameter slots directly behind them
/// (after the parameter alignment pad), zero-initialized, with child `j`
/// owning the `k` slots starting at `block + j * k`.
pub open spec fn action_group_post<A: Copy, C: Copy, P: Parameter>(
    pre: NodeArena<A, C, P>,
    post: NodeArena<A, C, P>,
    actions: Seq<A>,
    k: int,
    first: NodePtr,
) -> bool {
    let n = actions.len() as int;
    let base = pre.spec_nodes().len() as int;
    let pbase = pre.spec_params().len() as int;
    let l0 = pre.spec_account().3;
    let layout = pre.spec_layout();
    let node_off = l0 + pad_for(l0, layout.action.align as int);
    let l1 = alloc_end(l0, n, layout.action.size as int, layout.action.align as int);
    let l2 = alloc_end(l1, n * k, layout.parameter.size as int, layout.parameter.align as int);
    &&& first.0 == base
    &&& post.spec_nodes().len() == base + n
    &&& post.spec_offsets().len() == base + n
    &&& post.spec_params().len() == pbase + n * k
    &&& (forall|j: int|
        0 <= j < n ==> slot_is_action_with(
            #[trigger] post.spec_nodes()[base + j],
            actions[j],
            pbase + j * k,
            k,
            if j + 1 < n {
                Some(NodePtr((base + j + 1) as usize))
            } else {
                None::<NodePtr>
            },
        ))
    &&& (forall|j: int|
        0 <= j < n ==> #[trigger] post.spec_offsets()[base + j] == node_off + j
            * layout.action.size)
    &&& (forall|j: int|
        pbase <= j < pbase + n * k ==> #[trigger] post.spec_params()[j] == P::spec_init())
    &&& post.spec_account() == (
        sat_add(pre.spec_account().0, n),
        pre.spec_account().1,
        pbase + n * k,
        l2,
    )
    &&& l2 <= pre.spec_capacity()
}

/// The analogous contract for a chance group, which has no parameters.
pub open spec fn chance_group_post<A: Copy, C: Copy, P>(
    pre: NodeArena<A, C, P>,
    post: NodeArena<A, C, P>,
    chances: Seq<C>,
    first: NodePtr,
) -> bool {
    let n = chances.len() as int;
    let base = pre.spec_nodes().len() as int;
    let l0 = pre.spec_account().3;
    let layout = pre.spec_layout();
    let node_off = l0 + pad_for(l0, layout.chance.align as int);
    let l1 = alloc_end(l0, n, layout.chance.size as int, layout.chance.align as int);
    &&& first.0 == base
    &&& post.spec_nodes().len() == base + n
    &&& post.spec_offsets().len() == base + n
    &&& post.spec_params() == pre.spec_params()
    &&& (forall|j: int|
        0 <= j < n ==> slot_is_chance_with(
            #[trigger] post.spec_nodes()[base + j],
            chances[j],
            if j + 1 < n {
                Some(NodePtr((base + j + 1) as usize))
            } else {
                None::<NodePtr>
            },
        ))
    &&& (forall|j: int|
        0 <= j < n ==> #[trigger] post.spec_offsets()[base + j] == node_off + j
            * layout.chance.size)
    &&& post.spec_account() == (
        pre.spec_account().0,
        sat_add(pre.spec_account().1, n),
        pre.spec_account().2,
        l1,
    )
    &&& l1 <= pre.spec_capacity()
}

/// Allocates one group of sibling action nodes, one per action and in the
/// given order, followed by their zero-initialized parameter block of
/// `parameter_count` slots per node.  Returns a pointer to the first node.
pub fn allocate_action_nodes<A: Copy, C: Copy, P: Parameter>(
    actions: &Vec<A>,
    parameter_count: usize,
    arena: &mut NodeArena<A, C, P>,
) -> (r: Result<NodePtr, Error>)
    requires
        old(arena).wf(),
        actions@.len() >= 1,
        parameter_count >= 1,
    ensures
        final(arena).wf(),
        final(arena).spec_layout() == old(arena).spec_layout(),
        final(arena).spec_capacity() == old(arena).spec_capacity(),
        forall|j: int|
            0 <= j < old(arena).spec_nodes().len() ==> #[trigger] final(arena).spec_nodes()[j]
                == old(arena).spec_nodes()[j],
        forall|j: int|
            0 <= j < old(arena).spec_nodes().len() ==> #[trigger] final(arena).spec_offsets()[j]
                == old(arena).spec_offsets()[j],
        forall|j: int|
            0 <= j < old(arena).spec_params().len() ==> final(arena).spec_params()[j] == old(
                arena,
            ).spec_params()[j],
        match r {
            Ok(first) => action_group_post(
                *old(arena),
                *final(arena),
                actions@,
                parameter_count as int,
                first,
            ),
            Err(_) => {
                let l0 = old(arena).spec_account().3;
                let layout = old(arena).spec_layout();
                let n = actions@.len() as int;
                let k = parameter_count as int;
                let l1 = alloc_end(l0, n, layout.action.size as int, layout.action.align as int);
                let l2 = alloc_end(
                    l1,
                    n * k,
                    layout.parameter.size as int,
                    layout.parameter.align as int,
                );
                &&& final(arena).spec_nodes() == old(arena).spec_nodes()
                &&& final(arena).spec_offsets() == old(arena).spec_offsets()
                &&& final(arena).spec_params() == old(arena).spec_params()
                &&& final(arena).spec_account().0 == old(arena).spec_account().0
                &&& final(arena).spec_account().1 == old(arena).spec_account().1
                &&& final(arena).spec_account().3 >= l0
                &&& l2 > old(arena).spec_capacity()
            },
        },
{
    let n = actions.len();
    let k = parameter_count;
    let ghost l0 = arena.spec_account().3;
    let ghost layout_g = arena.spec_layout();
    let ghost asize = layout_g.action.size as int;
    let ghost aalign = layout_g.action.align as int;
    let ghost psize = layout_g.parameter.size as int;
    let ghost palign = layout_g.parameter.align as int;
    let ghost l1 = alloc_end(l0, n as int, asize, aalign);
    let ghost l2 = alloc_end(l1, n as int * k as int, psize, palign);

    let total = match n.checked_mul(k) {
        Some(t) => t,
        None => {
            proof {
                lemma_alloc_end_grows(l0, n as int, asize, aalign);
                lemma_alloc_end_grows(l1, n as int * k as int, psize, palign);
                assert(n as int * k as int * psize >= n as int * k as int) by (nonlinear_arith)
                    requires
                        psize >= 1,
                        n as int * k as int > usize::MAX,
                ;
                assert(0 <= l1 % palign < palign) by (nonlinear_arith)
                    requires
                        palign >= 1,
                        l1 >= 0,
                ;
            }
            return Err(Error::OutOfMemory);
        },
    };
    let node_off = match arena.bytes.allocate(
        n,
        arena.layout.action.size,
        arena.layout.action.align,
    ) {
        Ok(o) => o,
        Err(e) => {
            proof {
                lemma_alloc_end_grows(l1, n as int * k as int, psize, palign);
                lemma_alloc_end_grows(l0, n as int, asize, aalign);
            }
            return Err(e);
        },
    };
    let param_off = match arena.bytes.allocate(
        total,
        arena.layout.parameter.size,
        arena.layout.parameter.align,
    ) {
        Ok(o) => o,
        Err(e) => {
            return Err(e);
        },
    };

    let base = arena.nodes.len();
    let pbase = arena.parameters.len();
    proof {
        lemma_alloc_end_grows(l0, n as int, asize, aalign);
        lemma_alloc_end_grows(l1, n as int * k as int, psize, palign);
        assert(n as int * k as int * psize >= n as int * k as int) by (nonlinear_arith)
            requires
                psize >= 1,
                n as int * k as int >= 0,
        ;
        assert(n as int * asize >= n as int) by (nonlinear_arith)
            requires
                asize >= 1,
                n as int >= 0,
        ;
        assert(base + n <= l1);
        assert(pbase + total <= l2);
    }
    let mut fresh = P::initialize(total);
    arena.parameters.append(&mut fresh);

    let mut j: usize = 0;
    while j < n
        invariant
            n == actions@.len(),
            k == parameter_count,
            n >= 1,
            k >= 1,
            j <= n,
            base + n <= l1 <= l2 <= usize::MAX,
            pbase + total <= l2,
            total == n * k,
            arena.spec_layout() == layout_g,
            asize == layout_g.action.size,
            aalign == layout_g.action.align,
            arena.spec_capacity() == old(arena).spec_capacity(),
            l2 <= arena.spec_capacity(),
            node_off == l0 + pad_for(l0, aalign),
            node_off + n * asize == l1,
            base == old(arena).spec_nodes().len(),
            pbase == old(arena).spec_params().len(),
            l0 == old(arena).spec_account().3,
            arena.spec_account() == (
                old(arena).spec_account().0,
                old(arena).spec_account().1,
                pbase + n * k,
                l2,
            ),
            arena.spec_nodes().len() == base + j,
            arena.spec_offsets().len() == base + j,
            arena.spec_params().len() == pbase + total,
            old(arena).spec_offsets().len() == base,
            forall|i: int|
                0 <= i < base ==> #[trigger] arena.spec_nodes()[i] == old(arena).spec_nodes()[i],
            forall|i: int|
                0 <= i < base ==> #[trigger] arena.spec_offsets()[i] == old(
                    arena,
                ).spec_offsets()[i],
            forall|i: int|
                0 <= i < pbase ==> arena.spec_params()[i] == old(arena).spec_params()[i],
            forall|i: int|
                pbase <= i < pbase + total ==> #[trigger] arena.spec_params()[i]
                    == P::spec_init(),
            forall|m: int|
                0 <= m < j ==> slot_is_action_with(
                    #[trigger] arena.spec_nodes()[base + m],
                    actions@[m],
                    pbase + m * k,
                    k as int,
                    if m + 1 < n {
                        Some(NodePtr((base + m + 1) as usize))
                    } else {
                        None::<NodePtr>
                    },
                ),
            forall|m: int|
                0 <= m < j ==> #[trigger] arena.spec_offsets()[base + m] == node_off + m * asize,
        decreases n - j,
    {
        proof {
            assert(j * k <= n * k && (j + 1) * k <= n * k && (j + 1) * k == j * k + k)
                by (nonlinear_arith)
                requires
                    0 <= j < n,
                    k >= 1,
            ;
            assert(j * asize <= n * asize) by (nonlinear_arith)
                requires
                    0 <= j <= n,
                    asize >= 0,
            ;
        }
        let next = if j + 1 < n {
            Some(NodePtr(base + j + 1))
        } else {
            None
        };
        arena.nodes.push(
            NodeSlot::Action(
                ActionNode {
                    next_sibling: next,
                    first_child: Volatile::new(None),
                    parameters: pbase + j * k,
                    parameter_count: k,
                    action: actions[j],
                },
            ),
        );
        arena.offsets.push(node_off + j * arena.layout.action.size);
        j = j + 1;
    }
    arena.action = crate::arena::sat_add_usize(arena.action, n);
    proof {
        let nodes = arena.spec_nodes();
        let plen = arena.spec_params().len() as int;
        assert forall|i: int| 0 <= i < nodes.len() implies #[trigger] link_ok(nodes, i) by {
            if i < base {
                assert(slot_ok(
                    old(arena).spec_nodes(),
                    old(arena).spec_params().len() as int,
                    i,
                ));
                assert(link_ok(old(arena).spec_nodes(), i));
                assert(nodes[i] == old(arena).spec_nodes()[i]);
            } else {
                let m = i - base;
                assert(slot_is_action_with(
                    arena.spec_nodes()[base + m],
                    actions@[m],
                    pbase + m * k,
                    k as int,
                    if m + 1 < n {
                        Some(NodePtr((base + m + 1) as usize))
                    } else {
                        None::<NodePtr>
                    },
                ));
            }
        }
        assert forall|i: int| 0 <= i < nodes.len() implies slot_ok(nodes, plen, i) by {
            if i < base {
                assert(slot_ok(
                    old(arena).spec_nodes(),
                    old(arena).spec_params().len() as int,
                    i,
                ));
                assert(link_ok(old(arena).spec_nodes(), i));
                assert(nodes[i] == old(arena).spec_nodes()[i]);
                match old(arena).spec_nodes()[i].spec_next_sibling() {
                    Some(p) => {
                        assert(nodes[p.0 as int] == old(arena).spec_nodes()[p.0 as int]);
                    },
                    None => {},
                }
            } else {
                let m = i - base;
                assert(slot_is_action_with(
                    arena.spec_nodes()[base + m],
                    actions@[m],
                    pbase + m * k,
                    k as int,
                    if m + 1 < n {
                        Some(NodePtr((base + m + 1) as usize))
                    } else {
                        None::<NodePtr>
                    },
                ));
                assert((m + 1) * k <= n * k && (m + 1) * k == m * k + k && m * k >= 0)
                    by (nonlinear_arith)
                    requires
                        0 <= m < n,
                        k >= 1,
                ;
                if m + 1 < n {
                    assert(slot_is_action_with(
                        arena.spec_nodes()[base + (m + 1)],
                        actions@[m + 1],
                        pbase + (m + 1) * k,
                        k as int,
                        if m + 2 < n {
                            Some(NodePtr((base + (m + 1) + 1) as usize))
                        } else {
                            None::<NodePtr>
                        },
                    ));
                    assert(nodes[i + 1] == arena.spec_nodes()[base + (m + 1)]);
                }
            }
        }
        assert(links_ascending(nodes)) by {
            assert forall|i: int| #![trigger nodes[i]] 0 <= i < nodes.len() implies link_ok(
                nodes,
                i,
            ) by {
                assert(link_ok(nodes, i));
            }
        }
    }
    Ok(NodePtr(base))
}

/// Allocates one group of sibling chance nodes, one per outcome and in the
/// given order.  Returns a pointer to the first node.
pub fn allocate_chance_nodes<A: Copy, C: Copy, P>(
    chances: &Vec<C>,
    arena: &mut NodeArena<A, C, P>,
) -> (r: Result<NodePtr, Error>)
    requires
        old(arena).wf(),
        chances@.len() >= 1,
    ensures
        final(arena).wf(),
        final(arena).spec_layout() == old(arena).spec_layout(),
        final(arena).spec_capacity() == old(arena).spec_capacity(),
        final(arena).spec_params() == old(arena).spec_params(),
        forall|j: int|
            0 <= j < old(arena).spec_nodes().len() ==> #[trigger] final(arena).spec_nodes()[j]
                == old(arena).spec_nodes()[j],
        forall|j: int|
            0 <= j < old(arena).spec_nodes().len() ==> #[trigger] final(arena).spec_offsets()[j]
                == old(arena).spec_offsets()[j],
        match r {
            Ok(first) => chance_group_post(*old(arena), *final(arena), chances@, first),
            Err(_) => {
                let l0 = old(arena).spec_account().3;
                let layout = old(arena).spec_layout();
                let n = chances@.len() as int;
                &&& final(arena).spec_nodes() == old(arena).spec_nodes()
                &&& final(arena).spec_offsets() == old(arena).spec_offsets()
                &&& final(arena).spec_account() == old(arena).spec_account()
                &&& alloc_end(l0, n, layout.chance.size as int, layout.chance.align as int)
                    > old(arena).spec_capacity()
            },
        },
{
    let n = chances.len();
    let ghost l0 = arena.spec_account().3;
    let ghost layout_g = arena.spec_layout();
    let ghost csize = layout_g.chance.size as int;
    let ghost calign = layout_g.chance.align as int;
    let ghost l1 = alloc_end(l0, n as int, csize, calign);

    let node_off = match arena.bytes.allocate(
        n,
        arena.layout.chance.size,
        arena.layout.chance.align,
    ) {
        Ok(o) => o,
        Err(e) => {
            return Err(e);
        },
    };
    let base = arena.nodes.len();
    proof {
        lemma_alloc_end_grows(l0, n as int, csize, calign);
        assert(n as int * csize >= n as int) by (nonlinear_arith)
            requires
                csize >= 1,
                n as int >= 0,
        ;
        assert(base + n <= l1);
    }
    let mut j: usize = 0;
    while j < n
        invariant
            n == chances@.len(),
            n >= 1,
            j <= n,
            base + n <= l1 <= usize::MAX,
            arena.spec_layout() == layout_g,
            csize == layout_g.chance.size,
            calign == layout_g.chance.align,
            arena.spec_capacity() == old(arena).spec_capacity(),
            l1 <= arena.spec_capacity(),
            node_off == l0 + pad_for(l0, calign),
            node_off + n * csize == l1,
            base == old(arena).spec_nodes().len(),
            l0 == old(arena).spec_account().3,
            arena.spec_params() == old(arena).spec_params(),
            arena.spec_account() == (
                old(arena).spec_account().0,
                old(arena).spec_account().1,
                old(arena).spec_account().2,
                l1,
            ),
            arena.spec_nodes().len() == base + j,
            arena.spec_offsets().len() == base + j,
            old(arena).spec_offsets().len() == base,
            forall|i: int|
                0 <= i < base ==> #[trigger] arena.spec_nodes()[i] == old(arena).spec_nodes()[i],
            forall|i: int|
                0 <= i < base ==> #[trigger] arena.spec_offsets()[i] == old(
                    arena,
                ).spec_offsets()[i],
            forall|m: int|
                0 <= m < j ==> slot_is_chance_with(
                    #[trigger] arena.spec_nodes()[base + m],
                    chances@[m],
                    if m + 1 < n {
                        Some(NodePtr((base + m + 1) as usize))
                    } else {
                        None::<NodePtr>
                    },
                ),
            forall|m: int|
                0 <= m < j ==> #[trigger] arena.spec_offsets()[base + m] == node_off + m * csize,
        decreases n - j,
    {
        proof {
            assert(j * csize <= n * csize) by (nonlinear_arith)
                requires
                    0 <= j <= n,
                    csize >= 0,
            ;
        }
        let next = if j + 1 < n {
            Some(NodePtr(base + j + 1))
        } else {
            None
        };
        arena.nodes.push(
            NodeSlot::Chance(
                ChanceNode {
                    next_sibling: next,
                    first_child: Volatile::new(None),
                    result: chances[j],
                },
            ),
        );
        arena.offsets.push(node_off + j * arena.layout.chance.size);
        j = j + 1;
    }
    arena.chance = crate::arena::sat_add_usize(arena.chance, n);
    proof {
        let nodes = arena.spec_nodes();
        let plen = arena.spec_params().len() as int;
        assert forall|i: int| 0 <= i < nodes.len() implies #[trigger] link_ok(nodes, i) by {
            if i < base {
                assert(slot_ok(
                    old(arena).spec_nodes(),
                    old(arena).spec_params().len() as int,
                    i,
                ));
                assert(link_ok(old(arena).spec_nodes(), i));
                assert(nodes[i] == old(arena).spec_nodes()[i]);
            } else {
                let m = i - base;
                assert(slot_is_chance_with(
                    arena.spec_nodes()[base + m],
                    chances@[m],
                    if m + 1 < n {
                        Some(NodePtr((base + m + 1) as usize))
                    } else {
                        None::<NodePtr>
                    },
                ));
            }
        }
        assert forall|i: int| 0 <= i < nodes.len() implies slot_ok(nodes, plen, i) by {
            if i < base {
                assert(slot_ok(
                    old(arena).spec_nodes(),
                    old(arena).spec_params().len() as int,
                    i,
                ));
                assert(link_ok(old(arena).spec_nodes(), i));
                assert(nodes[i] == old(arena).spec_nodes()[i]);
                match old(arena).spec_nodes()[i].spec_next_sibling() {
                    Some(p) => {
                        assert(nodes[p.0 as int] == old(arena).spec_nodes()[p.0 as int]);
                    },
                    None => {},
                }
            } else {
                let m = i - base;
                assert(slot_is_chance_with(
                    arena.spec_nodes()[base + m],
                    chances@[m],
                    if m + 1 < n {
                        Some(NodePtr((base + m + 1) as usize))
                    } else {
                        None::<NodePtr>
                    },
                ));
                if m + 1 < n {
                    assert(slot_is_chance_with(
                        arena.spec_nodes()[base + (m + 1)],
                        chances@[m + 1],
                        if m + 2 < n {
                            Some(NodePtr((base + (m + 1) + 1) as usize))
                        } else {
                            None::<NodePtr>
                        },
                    ));
                    assert(nodes[i + 1] == arena.spec_nodes()[base + (m + 1)]);
                }
            }
        }
        assert(links_ascending(nodes)) by {
            assert forall|i: int| #![trigger nodes[i]] 0 <= i < nodes.len() implies link_ok(
                nodes,
                i,
            ) by {
                assert(link_ok(nodes, i));
            }
        }
    }
    Ok(NodePtr(base))
}

/// Allocates the root node of a tree.
pub fn allocate_root_node<A: Copy, C: Copy, P>(arena: &mut NodeArena<A, C, P>) -> (r: Result<
    NodePtr,
    Error,
>)
    requires
        old(arena).wf(),
    ensures
        final(arena).wf(),
        final(arena).spec_layout() == old(arena).spec_layout(),
        final(arena).spec_capacity() == old(arena).spec_capacity(),
        final(arena).spec_params() == old(arena).spec_params(),
        forall|j: int|
            0 <= j < old(arena).spec_nodes().len() ==> #[trigger] final(arena).spec_nodes()[j]
                == old(arena).spec_nodes()[j],
        forall|j: int|
            0 <= j < old(arena).spec_nodes().len() ==> #[trigger] final(arena).spec_offsets()[j]
                == old(arena).spec_offsets()[j],
        match r {
            Ok(p) => {
                let l0 = old(arena).spec_account().3;
                let layout = old(arena).spec_layout();
                let end = alloc_end(l0, 1, layout.root.size as int, layout.root.align as int);
                &&& p.0 == old(arena).spec_nodes().len()
                &&& final(arena).spec_nodes().len() == p.0 + 1
                &&& final(arena).spec_nodes()[p.0 as int] is Root
                &&& final(arena).spec_nodes()[p.0 as int].spec_first_child() is None
                &&& final(arena).spec_offsets()[p.0 as int] == l0 + pad_for(
                    l0,
                    layout.root.align as int,
                )
                &&& final(arena).spec_account() == (
                    old(arena).spec_account().0,
                    old(arena).spec_account().1,
                    old(arena).spec_account().2,
                    end,
                )
                &&& end <= old(arena).spec_capacity()
            },
            Err(_) => {
                &&& final(arena).spec_nodes() == old(arena).spec_nodes()
                &&& final(arena).spec_offsets() == old(arena).spec_offsets()
                &&& final(arena).spec_account() == old(arena).spec_account()
                &&& alloc_end(
                    old(arena).spec_account().3,
                    1,
                    old(arena).spec_layout().root.size as int,
                    old(arena).spec_layout().root.align as int,
                ) > old(arena).spec_capacity()
            },
        },
{
    let off = match arena.bytes.allocate(1, arena.layout.root.size, arena.layout.root.align) {
        Ok(o) => o,
        Err(e) => {
            return Err(e);
        },
    };
    let p = NodePtr(arena.nodes.len());
    arena.nodes.push(NodeSlot::Root(RootNode { first_child: Volatile::new(None) }));
    arena.offsets.push(off);
    proof {
        let nodes = arena.spec_nodes();
        let plen = arena.spec_params().len() as int;
        assert forall|i: int| 0 <= i < nodes.len() implies #[trigger] slot_ok(nodes, plen, i) by {
            if i < nodes.len() - 1 {
                assert(slot_ok(old(arena).spec_nodes(), plen, i));
                assert(link_ok(old(arena).spec_nodes(), i));
            }
        }
        assert(links_ascending(nodes)) by {
            assert forall|i: int| 0 <= i < nodes.len() implies #[trigger] link_ok(nodes, i) by {
                if i < nodes.len() - 1 {
                    assert(link_ok(old(arena).spec_nodes(), i));
                }
            }
        }
        assert(nodes.len() <= arena.spec_account().3);
    }
    Ok(p)
}

/// Builds the sibling group for `state` and, recursively, every
/// non-terminal child's subtree, to at most `fuel` generations.  Returns
/// the first node of the group.
fn allocate_children<G: Game, P: Parameter>(
    g: &G,
    state: &G::State,
    arena: &mut NodeArena<G::Action, G::Chance, P>,
    fuel: usize,
) -> (r: Result<NodePtr, Error>)
    requires
        old(arena).wf(),
        g.spec_state_wf(*state),
        !g.spec_stage(*state).spec_is_terminal(),
        fuel >= 1,
    ensures
        final(arena).wf(),
        final(arena).spec_layout() == old(arena).spec_layout(),
        final(arena).spec_capacity() == old(arena).spec_capacity(),
        final(arena).spec_nodes().len() >= old(arena).spec_nodes().len(),
        final(arena).spec_params().len() >= old(arena).spec_params().len(),
        forall|j: int|
            0 <= j < old(arena).spec_nodes().len() ==> #[trigger] final(arena).spec_nodes()[j]
                == old(arena).spec_nodes()[j],
        forall|j: int|
            0 <= j < old(arena).spec_nodes().len() ==> #[trigger] final(arena).spec_offsets()[j]
                == old(arena).spec_offsets()[j],
        forall|j: int|
            0 <= j < old(arena).spec_params().len() ==> #[trigger] final(arena).spec_params()[j]
                == old(arena).spec_params()[j],
        forall|j: int|
            old(arena).spec_params().len() <= j < final(arena).spec_params().len()
                ==> #[trigger] final(arena).spec_params()[j] == P::spec_init(),
        match r {
            Ok(first) => {
                let evs = g.spec_events(*state);
                let nodes = final(arena).spec_nodes();
                &&& first.0 == old(arena).spec_nodes().len()
                &&& first.0 < final(arena).spec_nodes().len()
                &&& final(arena).spec_account() == tree_account::<G>(
                    *g,
                    *state,
                    old(arena).spec_account(),
                    old(arena).spec_layout(),
                    fuel as nat,
                )
                &&& first.0 + evs.len() <= nodes.len()
                &&& forall|j: int|
                    0 <= j < evs.len() ==> #[trigger] nodes[first.0 + j].spec_next_sibling()
                        == (if j + 1 < evs.len() {
                        Some(NodePtr((first.0 + j + 1) as usize))
                    } else {
                        None::<NodePtr>
                    })
                &&& forall|j: int|
                    0 <= j < evs.len() ==> slot_realizes_event(
                        nodes[first.0 + j],
                        #[trigger] evs[j],
                    )
                &&& subtree_realizes(*g, nodes, first.0 as int, *state, fuel as nat)
            },
            Err(_) => {
                let total = tree_account::<G>(
                    *g,
                    *state,
                    old(arena).spec_account(),
                    old(arena).spec_layout(),
                    fuel as nat,
                );
                total.3 > old(arena).spec_capacity() || total.3 == usize::MAX
            },
        },
    decreases fuel,
{
    let ghost acc0 = arena.spec_account();
    let ghost layout_g = arena.spec_layout();
    let ghost cap = arena.spec_capacity();
    let stage = g.get_stage(state);
    proof {
        g.lemma_game_wf(*state, g.spec_events(*state)[0]);
        g.spec_stage(*state).lemma_partition();
    }
    let mut events: Vec<Event<G::Action, G::Chance>> = Vec::new();
    g.populate_events(state, &mut events);
    let ghost evs = events@;
    let n = events.len();

    let first = if stage.is_action() {
        let mut actions: Vec<G::Action> = Vec::new();
        let mut i: usize = 0;
        while i < n
            invariant
                events@ == evs,
                n == evs.len(),
                i <= n,
                actions@.len() == i,
                forall|m: int|
                    0 <= m < evs.len() ==> #[trigger] evs[m] is Action,
                forall|m: int|
                    0 <= m < i ==> (evs[m] matches Event::Action(a) && #[trigger] actions@[m]
                        == a),
            decreases n - i,
        {
            match events[i] {
                Event::Action(a) => actions.push(a),
                Event::Chance(_) => {
                    proof {
                        assert(false);
                    }
                },
            }
            i = i + 1;
        }
        let k = <G::ParameterMapping as ParameterMapping>::get_parameter_count(state);
        match allocate_action_nodes(&actions, k, arena) {
            Ok(f) => {
                proof {
                    let group = group_account::<G>(*g, *state, acc0, layout_g);
                    let l1 = alloc_end(
                        acc0.3,
                        n as int,
                        layout_g.action.size as int,
                        layout_g.action.align as int,
                    );
                    lemma_alloc_end_grows(
                        acc0.3,
                        n as int,
                        layout_g.action.size as int,
                        layout_g.action.align as int,
                    );
                    lemma_sat_alloc_end_eq(
                        acc0.3,
                        n as int,
                        layout_g.action.size as int,
                        layout_g.action.align as int,
                    );
                    lemma_sat_alloc_end_eq(
                        l1,
                        n as int * k as int,
                        layout_g.parameter.size as int,
                        layout_g.parameter.align as int,
                    );
                    lemma_alloc_end_grows(
                        l1,
                        n as int * k as int,
                        layout_g.parameter.size as int,
                        layout_g.parameter.align as int,
                    );
                    assert(arena.spec_account() == group);
                    let b = f.0 as int;
                    let pbase = old(arena).spec_params().len() as int;
                    assert forall|j: int| 0 <= j < evs.len() implies slot_realizes_event(
                        arena.spec_nodes()[b + j],
                        #[trigger] evs[j],
                    ) && arena.spec_nodes()[b + j].spec_next_sibling() == (if j + 1
                        < evs.len() {
                        Some(NodePtr((b + j + 1) as usize))
                    } else {
                        None::<NodePtr>
                    }) by {
                        assert(slot_is_action_with(
                            arena.spec_nodes()[b + j],
                            actions@[j],
                            pbase + j * (k as int),
                            k as int,
                            if j + 1 < actions@.len() {
                                Some(NodePtr((b + j + 1) as usize))
                            } else {
                                None::<NodePtr>
                            },
                        ));
                        assert(evs[j] matches Event::Action(a) && actions@[j] == a);
                    }
                }
                f
            },
            Err(e) => {
                proof {
                    let group = group_account::<G>(*g, *state, acc0, layout_g);
                    let l1 = alloc_end(
                        acc0.3,
                        n as int,
                        layout_g.action.size as int,
                        layout_g.action.align as int,
                    );
                    let l2 = alloc_end(
                        l1,
                        n as int * k as int,
                        layout_g.parameter.size as int,
                        layout_g.parameter.align as int,
                    );
                    lemma_alloc_end_grows(
                        acc0.3,
                        n as int,
                        layout_g.action.size as int,
                        layout_g.action.align as int,
                    );
                    lemma_sat_alloc_end_eq(
                        acc0.3,
                        n as int,
                        layout_g.action.size as int,
                        layout_g.action.align as int,
                    );
                    lemma_alloc_end_grows(
                        l1,
                        n as int * k as int,
                        layout_g.parameter.size as int,
                        layout_g.parameter.align as int,
                    );
                    if l1 <= usize::MAX {
                        lemma_sat_alloc_end_eq(
                            l1,
                            n as int * k as int,
                            layout_g.parameter.size as int,
                            layout_g.parameter.align as int,
                        );
                    } else {
                        crate::arena::lemma_sat_alloc_end_full(
                            n as int * k as int,
                            layout_g.parameter.size as int,
                            layout_g.parameter.align as int,
                        );
                    }
                    crate::estimator::lemma_children_account_len(
                        *g,
                        *state,
                        evs,
                        0,
                        group,
                        layout_g,
                        fuel as nat,
                    );
                }
                return Err(e);
            },
        }
    } else {
        let mut chances: Vec<G::Chance> = Vec::new();
        let mut i: usize = 0;
        while i < n
            invariant
                events@ == evs,
                n == evs.len(),
                i <= n,
                chances@.len() == i,
                forall|m: int|
                    0 <= m < evs.len() ==> #[trigger] evs[m] is Chance,
                forall|m: int|
                    0 <= m < i ==> (evs[m] matches Event::Chance(c) && #[trigger] chances@[m]
                        == c),
            decreases n - i,
        {
            match events[i] {
                Event::Chance(c) => chances.push(c),
                Event::Action(_) => {
                    proof {
                        assert(false);
                    }
                },
            }
            i = i + 1;
        }
        match allocate_chance_nodes(&chances, arena) {
            Ok(f) => {
                proof {
                    lemma_sat_alloc_end_eq(
                        acc0.3,
                        n as int,
                        layout_g.chance.size as int,
                        layout_g.chance.align as int,
                    );
                    assert(arena.spec_account() == group_account::<G>(*g, *state, acc0, layout_g));
                    let b = f.0 as int;
                    assert forall|j: int| 0 <= j < evs.len() implies slot_realizes_event(
                        arena.spec_nodes()[b + j],
                        #[trigger] evs[j],
                    ) && arena.spec_nodes()[b + j].spec_next_sibling() == (if j + 1
                        < evs.len() {
                        Some(NodePtr((b + j + 1) as usize))
                    } else {
                        None::<NodePtr>
                    }) by {
                        assert(slot_is_chance_with(
                            arena.spec_nodes()[b + j],
                            chances@[j],
                            if j + 1 < chances@.len() {
                                Some(NodePtr((b + j + 1) as usize))
                            } else {
                                None::<NodePtr>
                            },
                        ));
                        assert(evs[j] matches Event::Chance(c) && chances@[j] == c);
                    }
                }
                f
            },
            Err(e) => {
                proof {
                    let group = group_account::<G>(*g, *state, acc0, layout_g);
                    lemma_sat_alloc_end_eq(
                        acc0.3,
                        n as int,
                        layout_g.chance.size as int,
                        layout_g.chance.align as int,
                    );
                    crate::estimator::lemma_children_account_len(
                        *g,
                        *state,
                        evs,
                        0,
                        group,
                        layout_g,
                        fuel as nat,
                    );
                }
                return Err(e);
            },
        }
    };

    let ghost acc1 = arena.spec_account();
    let ghost base = first.0 as int;
    let ghost old_nodes_len = old(arena).spec_nodes().len() as int;
    let mut j: usize = 0;
    while j < n
        invariant
            g.spec_state_wf(*state),
            !g.spec_stage(*state).spec_is_terminal(),
            g.spec_stage(*state).spec_is_action() ==> forall|m: int|
                0 <= m < evs.len() ==> #[trigger] evs[m] is Action,
            g.spec_stage(*state).spec_is_chance() ==> forall|m: int|
                0 <= m < evs.len() ==> #[trigger] evs[m] is Chance,
            evs == g.spec_events(*state),
            events@ == evs,
            n == evs.len(),
            j <= n,
            fuel >= 1,
            arena.wf(),
            old_nodes_len == old(arena).spec_nodes().len(),
            layout_g == old(arena).spec_layout(),
            cap == old(arena).spec_capacity(),
            acc0 == old(arena).spec_account(),
            acc1 == group_account::<G>(*g, *state, acc0, layout_g),
            arena.spec_layout() == layout_g,
            arena.spec_capacity() == cap,
            base == old_nodes_len,
            base == first.0,
            old(arena).spec_params().len() <= arena.spec_params().len(),
            base + n <= arena.spec_nodes().len(),
            arena.spec_nodes().len() <= usize::MAX,
            forall|idx: int|
                0 <= idx < old_nodes_len ==> #[trigger] arena.spec_nodes()[idx] == old(
                    arena,
                ).spec_nodes()[idx],
            forall|idx: int|
                0 <= idx < old_nodes_len ==> #[trigger] arena.spec_offsets()[idx] == old(
                    arena,
                ).spec_offsets()[idx],
            forall|idx: int|
                0 <= idx < old(arena).spec_params().len() ==> #[trigger] arena.spec_params()[idx]
                    == old(arena).spec_params()[idx],
            forall|idx: int|
                old(arena).spec_params().len() <= idx < arena.spec_params().len()
                    ==> #[trigger] arena.spec_params()[idx] == P::spec_init(),
            forall|m: int|
                j <= m < n ==> #[trigger] arena.spec_nodes()[base + m].spec_first_child()
                    is None,
            forall|m: int|
                0 <= m < n ==> #[trigger] arena.spec_nodes()[base + m].spec_next_sibling() == (
                if m + 1 < n {
                    Some(NodePtr((base + m + 1) as usize))
                } else {
                    None::<NodePtr>
                }),
            forall|m: int|
                0 <= m < n ==> slot_realizes_event(
                    arena.spec_nodes()[base + m],
                    #[trigger] evs[m],
                ),
            forall|m: int|
                0 <= m < j ==> #[trigger] member_realizes(
                    *g,
                    arena.spec_nodes(),
                    base,
                    *state,
                    m,
                    fuel as nat,
                ),
            forall|m: int|
                0 <= m < j ==> (match (#[trigger] arena.spec_nodes()[base + m]).spec_first_child() {
                    Some(c) => base + n <= c.0,
                    None => true,
                }),
            children_account::<G>(
                *g,
                *state,
                evs,
                j as int,
                arena.spec_account(),
                layout_g,
                fuel as nat,
            ) == children_account::<G>(*g, *state, evs, 0, acc1, layout_g, fuel as nat),
        decreases n - j,
    {
        let ghost pre_account = arena.spec_account();
        let ghost nodes_a = arena.spec_nodes();
        let ghost offsets_a = arena.spec_offsets();
        let ghost params_a = arena.spec_params();
        let child = NodePtr(first.0 + j);
        let mut next_state = g.clone_state(state);
        g.advance_state(&mut next_state, events[j]);
        let child_stage = g.get_stage(&next_state);
        if fuel > 1 && !child_stage.is_terminal() {
            let sub = match allocate_children(g, &next_state, arena, fuel - 1) {
                Ok(f) => f,
                Err(e) => {
                    proof {
                        let sub_total = tree_account::<G>(
                            *g,
                            g.spec_advance(*state, evs[j as int]),
                            pre_account,
                            layout_g,
                            (fuel - 1) as nat,
                        );
                        crate::estimator::lemma_tree_account_len(
                            *g,
                            g.spec_advance(*state, evs[j as int]),
                            pre_account,
                            layout_g,
                            (fuel - 1) as nat,
                        );
                        crate::estimator::lemma_children_account_len(
                            *g,
                            *state,
                            evs,
                            j as int + 1,
                            sub_total,
                            layout_g,
                            fuel as nat,
                        );
                    }
                    proof {
                        assert forall|idx: int| 0 <= idx < old_nodes_len implies #[trigger] arena.spec_nodes()[idx] == old(arena).spec_nodes()[idx] by {
                            assert(arena.spec_nodes()[idx] == nodes_a[idx]);
                        }
                        assert forall|idx: int| 0 <= idx < old_nodes_len implies #[trigger] arena.spec_offsets()[idx] == old(arena).spec_offsets()[idx] by {
                            assert(arena.spec_offsets()[idx] == offsets_a[idx]);
                        }
                        assert forall|idx: int| 0 <= idx < old(arena).spec_params().len() implies #[trigger] arena.spec_params()[idx] == old(arena).spec_params()[idx] by {
                            assert(arena.spec_params()[idx] == params_a[idx]);
                        }
                    }
                    return Err(e);
                },
            };
            let ghost nodes_b = arena.spec_nodes();
            let ghost offsets_b = arena.spec_offsets();
            let ghost params_b = arena.spec_params();
            arena.add_child(child, sub);
            proof {
                assert forall|idx: int| 0 <= idx < old_nodes_len implies #[trigger] arena.spec_nodes()[idx] == old(arena).spec_nodes()[idx] by {
                    assert(idx != child.0);
                    assert(arena.spec_nodes()[idx] == nodes_b[idx]);
                    assert(nodes_b[idx] == nodes_a[idx]);
                }
                assert forall|idx: int| 0 <= idx < old_nodes_len implies #[trigger] arena.spec_offsets()[idx] == old(arena).spec_offsets()[idx] by {
                    assert(arena.spec_offsets()[idx] == offsets_b[idx]);
                    assert(offsets_b[idx] == offsets_a[idx]);
                }
                assert forall|idx: int| 0 <= idx < old(arena).spec_params().len() implies #[trigger] arena.spec_params()[idx] == old(arena).spec_params()[idx] by {
                    assert(arena.spec_params()[idx] == params_b[idx]);
                    assert(params_b[idx] == params_a[idx]);
                }
                assert forall|m: int| j + 1 <= m < n implies #[trigger] arena.spec_nodes()[base + m].spec_first_child() is None by {
                    assert(base + m != child.0);
                    assert(base + m < nodes_a.len());
                    assert(arena.spec_nodes()[base + m] == nodes_b[base + m]);
                    assert(nodes_b[base + m] == nodes_a[base + m]);
                }
                assert forall|m: int| 0 <= m < n implies #[trigger] arena.spec_nodes()[base + m].spec_next_sibling() == (if m + 1 < n {
                    Some(NodePtr((base + m + 1) as usize))
                } else {
                    None::<NodePtr>
                }) && slot_realizes_event(arena.spec_nodes()[base + m], evs[m]) by {
                    assert(base + m < nodes_a.len());
                    assert(nodes_b[base + m] == nodes_a[base + m]);
                    if base + m == child.0 {
                        assert(same_except_first_child(nodes_b[base + m], arena.spec_nodes()[base + m]));
                    } else {
                        assert(arena.spec_nodes()[base + m] == nodes_b[base + m]);
                    }
                }
                // The freshly attached subtree survives the parent's
                // child-link write, and earlier members are untouched.
                assert forall|i: int|
                    sub.0 <= i < nodes_b.len() implies #[trigger] arena.spec_nodes()[i]
                        == nodes_b[i] by {
                    assert(i != child.0);
                }
                lemma_subtree_realizes_frame(
                    *g,
                    nodes_b,
                    arena.spec_nodes(),
                    sub.0 as int,
                    g.spec_advance(*state, evs[j as int]),
                    (fuel - 1) as nat,
                );
                assert(member_realizes(*g, arena.spec_nodes(), base, *state, j as int, fuel as nat));
                assert forall|m: int| 0 <= m < j implies #[trigger] member_realizes(
                    *g,
                    arena.spec_nodes(),
                    base,
                    *state,
                    m,
                    fuel as nat,
                ) by {
                    assert(member_realizes(*g, nodes_a, base, *state, m, fuel as nat));
                    assert(arena.spec_nodes()[base + m] == nodes_a[base + m]);
                    assert forall|i: int|
                        base + n <= i < nodes_a.len() implies #[trigger] arena.spec_nodes()[i]
                            == nodes_a[i] by {
                        assert(i != child.0);
                        assert(nodes_b[i] == nodes_a[i]);
                        assert(arena.spec_nodes()[i] == nodes_b[i]);
                    }
                    lemma_member_realizes_frame(
                        *g,
                        nodes_a,
                        arena.spec_nodes(),
                        base,
                        *state,
                        m,
                        fuel as nat,
                        base + n,
                    );
                }
            }
        } else {
            proof {
                assert(tree_account::<G>(
                    *g,
                    g.spec_advance(*state, evs[j as int]),
                    pre_account,
                    layout_g,
                    (fuel - 1) as nat,
                ) == pre_account);
                assert(member_realizes(*g, arena.spec_nodes(), base, *state, j as int, fuel as nat));
            }
        }
        j = j + 1;
    }
    proof {
        lemma_group_realizes_intro(*g, arena.spec_nodes(), base, *state, 0, fuel as nat);
    }
    Ok(first)
}

/// Materializes the full game tree below `root_state` in the arena, to at
/// most `fuel` generations of sibling groups: the root node, then,
/// depth-first and in event order, one sibling group per non-terminal
/// state.  On success the arena's account equals the estimator's for the
/// same game, layout and fuel; it fails exactly when that account does not
/// fit the arena (or overflows the address space).  A `fuel` smaller than
/// the game's depth builds the tree truncated to that many generations;
/// the estimator driven with the same fuel truncates identically, so the
/// exactness contract holds either way.
pub fn allocate_tree<G: Game, P: Parameter>(
    g: &G,
    root_state: &G::State,
    arena: &mut NodeArena<G::Action, G::Chance, P>,
    fuel: usize,
) -> (r: Result<NodePtr, Error>)
    requires
        old(arena).wf(),
        g.spec_state_wf(*root_state),
        !g.spec_stage(*root_state).spec_is_terminal(),
        fuel >= 1,
    ensures
        final(arena).wf(),
        final(arena).spec_layout() == old(arena).spec_layout(),
        final(arena).spec_capacity() == old(arena).spec_capacity(),
        forall|j: int|
            0 <= j < old(arena).spec_nodes().len() ==> #[trigger] final(arena).spec_nodes()[j]
                == old(arena).spec_nodes()[j],
        forall|j: int|
            0 <= j < old(arena).spec_params().len() ==> #[trigger] final(arena).spec_params()[j]
                == old(arena).spec_params()[j],
        forall|j: int|
            old(arena).spec_params().len() <= j < final(arena).spec_params().len()
                ==> #[trigger] final(arena).spec_params()[j] == P::spec_init(),
        ({
            let acc0 = old(arena).spec_account();
            let layout = old(arena).spec_layout();
            let start = (
                acc0.0,
                acc0.1,
                acc0.2,
                sat_alloc_end(acc0.3, 1, layout.root.size as int, layout.root.align as int),
            );
            let total = tree_account::<G>(*g, *root_state, start, layout, fuel as nat);
            match r {
                Ok(root) => {
                    let evs = g.spec_events(*root_state);
                    let nodes = final(arena).spec_nodes();
                    let base = root.0 + 1;
                    &&& root.0 == old(arena).spec_nodes().len()
                    &&& root.0 + 1 < final(arena).spec_nodes().len()
                    &&& final(arena).spec_nodes()[root.0 as int] is Root
                    &&& final(arena).spec_nodes()[root.0 as int].spec_first_child() == Some(
                        NodePtr((root.0 + 1) as usize),
                    )
                    &&& final(arena).spec_account() == total
                    &&& total.3 <= old(arena).spec_capacity()
                    &&& base + evs.len() <= nodes.len()
                    &&& forall|j: int|
                        0 <= j < evs.len() ==> #[trigger] nodes[base + j].spec_next_sibling()
                            == (if j + 1 < evs.len() {
                            Some(NodePtr((base + j + 1) as usize))
                        } else {
                            None::<NodePtr>
                        })
                    &&& forall|j: int|
                        0 <= j < evs.len() ==> slot_realizes_event(
                            nodes[base + j],
                            #[trigger] evs[j],
                        )
                    &&& subtree_realizes(*g, nodes, base as int, *root_state, fuel as nat)
                },
                Err(_) => total.3 > old(arena).spec_capacity() || total.3 == usize::MAX,
            }
        }),
{
    let ghost acc0 = arena.spec_account();
    let ghost layout_g = arena.spec_layout();
    let ghost start = (
        acc0.0,
        acc0.1,
        acc0.2,
        sat_alloc_end(acc0.3, 1, layout_g.root.size as int, layout_g.root.align as int),
    );
    let root_node = match allocate_root_node(arena) {
        Ok(p) => p,
        Err(e) => {
            proof {
                lemma_sat_alloc_end_eq(
                    acc0.3,
                    1,
                    layout_g.root.size as int,
                    layout_g.root.align as int,
                );
                lemma_alloc_end_grows(
                    acc0.3,
                    1,
                    layout_g.root.size as int,
                    layout_g.root.align as int,
                );
                crate::estimator::lemma_tree_account_len(
                    *g,
                    *root_state,
                    start,
                    layout_g,
                    fuel as nat,
                );
            }
            return Err(e);
        },
    };
    proof {
        lemma_sat_alloc_end_eq(acc0.3, 1, layout_g.root.size as int, layout_g.root.align as int);
        assert(arena.spec_account() == start);
    }
    let ghost nodes1 = arena.spec_nodes();
    let ghost offsets1 = arena.spec_offsets();
    let ghost params1 = arena.spec_params();
    let first_child = match allocate_children(g, root_state, arena, fuel) {
        Ok(f) => f,
        Err(e) => {
            proof {
                assert forall|j: int| 0 <= j < old(arena).spec_nodes().len() implies #[trigger] arena.spec_nodes()[j] == old(arena).spec_nodes()[j] by {
                    assert(arena.spec_nodes()[j] == nodes1[j]);
                    assert(nodes1[j] == old(arena).spec_nodes()[j]);
                }
                assert forall|j: int| 0 <= j < old(arena).spec_params().len() implies #[trigger] arena.spec_params()[j] == old(arena).spec_params()[j] by {
                    assert(arena.spec_params()[j] == params1[j]);
                }
            }
            return Err(e);
        },
    };
    let ghost nodes2 = arena.spec_nodes();
    let ghost params2 = arena.spec_params();
    arena.add_child(root_node, first_child);
    proof {
        let evs = g.spec_events(*root_state);
        assert forall|j: int| 0 <= j < evs.len() implies #[trigger] arena.spec_nodes()[first_child.0 + j].spec_next_sibling() == (if j + 1 < evs.len() {
            Some(NodePtr((first_child.0 + j + 1) as usize))
        } else {
            None::<NodePtr>
        }) && slot_realizes_event(arena.spec_nodes()[first_child.0 + j], evs[j]) by {
            assert(first_child.0 + j != root_node.0);
            assert(arena.spec_nodes()[first_child.0 + j] == nodes2[first_child.0 + j]);
        }
        assert forall|i: int|
            first_child.0 <= i < nodes2.len() implies #[trigger] arena.spec_nodes()[i]
                == nodes2[i] by {
            assert(i != root_node.0);
        }
        lemma_subtree_realizes_frame(
            *g,
            nodes2,
            arena.spec_nodes(),
            first_child.0 as int,
            *root_state,
            fuel as nat,
        );
        assert forall|j: int| 0 <= j < old(arena).spec_nodes().len() implies #[trigger] arena.spec_nodes()[j] == old(arena).spec_nodes()[j] by {
            assert(j < root_node.0);
            assert(arena.spec_nodes()[j] == nodes2[j]);
            assert(nodes2[j] == nodes1[j]);
            assert(nodes1[j] == old(arena).spec_nodes()[j]);
        }
        assert forall|j: int| 0 <= j < old(arena).spec_params().len() implies #[trigger] arena.spec_params()[j] == old(arena).spec_params()[j] by {
            assert(arena.spec_params()[j] == params2[j]);
            assert(params2[j] == params1[j]);
        }
    }
    Ok(root_node)
}



/// Member `m` of the sibling group at `base` realizes event `m` of state
/// `s`: right payload, right forward link, and — unless the child state is
/// terminal or the depth is exhausted, in which case it is a leaf — a
/// child list that realizes the advanced state in turn.
pub open spec fn member_realizes<G: Game>(
    g: G,
    nodes: Seq<NodeSlot<G::Action, G::Chance>>,
    base: int,
    s: G::State,
    m: int,
    fuel: nat,
) -> bool
    decreases fuel, 0int, 0int,
{
    let evs = g.spec_events(s);
    let idx = base + m;
    &&& 0 <= idx < nodes.len()
    &&& slot_realizes_event(nodes[idx], evs[m])
    &&& nodes[idx].spec_next_sibling() == (if m + 1 < evs.len() {
        Some(NodePtr((idx + 1) as usize))
    } else {
        None::<NodePtr>
    })
    &&& ({
        let s2 = g.spec_advance(s, evs[m]);
        if g.spec_stage(s2).spec_is_terminal() || fuel <= 1 {
            nodes[idx].spec_first_child() is None
        } else {
            match nodes[idx].spec_first_child() {
                Some(c) => idx < c.0 < nodes.len() && subtree_realizes(
                    g,
                    nodes,
                    c.0 as int,
                    s2,
                    (fuel - 1) as nat,
                ),
                None => false,
            }
        }
    })
}

/// Members `j` onward of the group at `base` all realize their events.
pub open spec fn group_realizes<G: Game>(
    g: G,
    nodes: Seq<NodeSlot<G::Action, G::Chance>>,
    base: int,
    s: G::State,
    j: int,
    fuel: nat,
) -> bool
    decreases fuel, 1int, g.spec_events(s).len() - j,
{
    if j < 0 || j >= g.spec_events(s).len() || fuel == 0 {
        true
    } else {
        member_realizes(g, nodes, base, s, j, fuel) && group_realizes(g, nodes, base, s, j + 1, fuel)
    }
}

/// The sibling list at `first` realizes the whole game below `s`, to
/// `fuel` generations: one member per event of `s`, in order, each
/// carrying its realized subtree.  Any two arenas built from the same
/// game, state and fuel satisfy this same predicate, which is what makes
/// repeated builds isomorphic.
pub open spec fn subtree_realizes<G: Game>(
    g: G,
    nodes: Seq<NodeSlot<G::Action, G::Chance>>,
    first: int,
    s: G::State,
    fuel: nat,
) -> bool
    decreases fuel, 2int, 0int,
{
    group_realizes(g, nodes, first, s, 0, fuel)
}

/// A realized group tail realizes each of its members.
pub proof fn lemma_group_realizes_member<G: Game>(
    g: G,
    nodes: Seq<NodeSlot<G::Action, G::Chance>>,
    base: int,
    s: G::State,
    j: int,
    m: int,
    fuel: nat,
)
    requires
        group_realizes(g, nodes, base, s, j, fuel),
        fuel >= 1,
        j <= m < g.spec_events(s).len(),
        0 <= j,
    ensures
        member_realizes(g, nodes, base, s, m, fuel),
    decreases m - j,
{
    if m > j {
        lemma_group_realizes_member(g, nodes, base, s, j + 1, m, fuel);
    }
}

/// Members that each realize their event make a realized group.
pub proof fn lemma_group_realizes_intro<G: Game>(
    g: G,
    nodes: Seq<NodeSlot<G::Action, G::Chance>>,
    base: int,
    s: G::State,
    j: int,
    fuel: nat,
)
    requires
        0 <= j,
        forall|m: int|
            j <= m < g.spec_events(s).len() ==> #[trigger] member_realizes(
                g,
                nodes,
                base,
                s,
                m,
                fuel,
            ),
    ensures
        group_realizes(g, nodes, base, s, j, fuel),
    decreases g.spec_events(s).len() - j,
{
    if j < g.spec_events(s).len() && fuel >= 1 {
        assert(member_realizes(g, nodes, base, s, j, fuel));
        lemma_group_realizes_intro(g, nodes, base, s, j + 1, fuel);
    }
}

/// Realization only reads the member's own slot and slots from `hi` up,
/// so edits elsewhere cannot disturb it.
pub proof fn lemma_member_realizes_frame<G: Game>(
    g: G,
    nodes1: Seq<NodeSlot<G::Action, G::Chance>>,
    nodes2: Seq<NodeSlot<G::Action, G::Chance>>,
    base: int,
    s: G::State,
    m: int,
    fuel: nat,
    hi: int,
)
    requires
        member_realizes(g, nodes1, base, s, m, fuel),
        nodes2.len() >= nodes1.len(),
        nodes2[base + m] == nodes1[base + m],
        forall|i: int| hi <= i < nodes1.len() ==> nodes2[i] == nodes1[i],
        (match nodes1[base + m].spec_first_child() {
            Some(c) => hi <= c.0,
            None => true,
        }),
    ensures
        member_realizes(g, nodes2, base, s, m, fuel),
    decreases fuel, 0int,
{
    let evs = g.spec_events(s);
    let idx = base + m;
    let s2 = g.spec_advance(s, evs[m]);
    if !(g.spec_stage(s2).spec_is_terminal() || fuel <= 1) {
        match nodes1[idx].spec_first_child() {
            Some(c) => {
                lemma_subtree_realizes_frame(g, nodes1, nodes2, c.0 as int, s2, (fuel - 1) as nat);
            },
            None => {},
        }
    }
}

/// Realization of a whole subtree only reads slots from `first` up.
pub proof fn lemma_subtree_realizes_frame<G: Game>(
    g: G,
    nodes1: Seq<NodeSlot<G::Action, G::Chance>>,
    nodes2: Seq<NodeSlot<G::Action, G::Chance>>,
    first: int,
    s: G::State,
    fuel: nat,
)
    requires
        subtree_realizes(g, nodes1, first, s, fuel),
        nodes2.len() >= nodes1.len(),
        forall|i: int| first <= i < nodes1.len() ==> nodes2[i] == nodes1[i],
    ensures
        subtree_realizes(g, nodes2, first, s, fuel),
    decreases fuel, 1int,
{
    if fuel >= 1 {
        assert forall|m: int| 0 <= m < g.spec_events(s).len() implies #[trigger] member_realizes(
            g,
            nodes2,
            first,
            s,
            m,
            fuel,
        ) by {
            lemma_group_realizes_member(g, nodes1, first, s, 0, m, fuel);
            match nodes1[first + m].spec_first_child() {
                Some(c) => {
                    assert(first <= c.0);
                },
                None => {},
            }
            lemma_member_realizes_frame(g, nodes1, nodes2, first, s, m, fuel, first);
        }
        lemma_group_realizes_intro(g, nodes2, first, s, 0, fuel);
    } else {
        assert(group_realizes(g, nodes2, first, s, 0, fuel));
    }
}

/// Sibling order: a freshly allocated action group realizes its actions in
/// order.  Walking the sibling chain from the returned first node visits
/// exactly the new nodes, consecutively, and the `j`-th carries
/// `actions[j]` with the `j`-th parameter block.
pub proof fn lemma_action_group_order<A: Copy, C: Copy, P: Parameter>(
    pre: NodeArena<A, C, P>,
    post: NodeArena<A, C, P>,
    actions: Seq<A>,
    k: int,
    first: NodePtr,
)
    requires
        post.wf(),
        actions.len() >= 1,
        action_group_post(pre, post, actions, k, first),
    ensures
        ({
            let chain = crate::node::sibling_chain(post.spec_nodes(), Some(first));
            &&& chain.len() == actions.len()
            &&& forall|j: int| 0 <= j < chain.len() ==> (#[trigger] chain[j]).0 == first.0 + j
            &&& forall|j: int|
                0 <= j < chain.len() ==> slot_is_action_with(
                    post.spec_nodes()[first.0 + j],
                    #[trigger] actions[j],
                    pre.spec_params().len() + j * k,
                    k,
                    if j + 1 < actions.len() {
                        Some(NodePtr((first.0 + j + 1) as usize))
                    } else {
                        None::<NodePtr>
                    },
                )
        }),
{
    let base = first.0 as int;
    let n = actions.len() as int;
    let nodes = post.spec_nodes();
    assert forall|m: int| 0 <= m < n implies #[trigger] nodes[base + m].spec_next_sibling() == (
    if m + 1 < n {
        Some(NodePtr((base + m + 1) as usize))
    } else {
        None::<NodePtr>
    }) by {
        assert(slot_is_action_with(
            post.spec_nodes()[base + m],
            actions[m],
            pre.spec_params().len() + m * k,
            k,
            if m + 1 < n {
                Some(NodePtr((base + m + 1) as usize))
            } else {
                None::<NodePtr>
            },
        ));
    }
    crate::node::lemma_chain_of_group(nodes, base, n, 0);
    let chain = crate::node::sibling_chain(nodes, Some(first));
    assert(chain =~= Seq::new(n as nat, |m: int| NodePtr((base + m) as usize)));
    assert forall|j: int| 0 <= j < chain.len() implies (#[trigger] chain[j]).0 == first.0 + j by {
        assert(chain[j] == NodePtr((base + j) as usize));
    }
}

/// The estimator brackets every successful build: a build driven with the
/// same game, layout and fuel lands exactly on the estimator's minimum
/// byte bound, which never exceeds its maximum bound.
pub proof fn lemma_estimate_brackets<G: Game>(g: G, s: G::State, layout: NodeLayout, fuel: nat)
    requires
        node_layout_wf(layout),
    ensures
        ({
            let min = tree_account::<G>(g, s, crate::estimator::root_account(layout), layout, fuel).3;
            0 <= min <= sat_add(min, layout.root.align - 1) <= usize::MAX
        }),
{
    lemma_alloc_end_grows(0, 1, layout.root.size as int, layout.root.align as int);
    crate::estimator::lemma_tree_account_len(
        g,
        s,
        crate::estimator::root_account(layout),
        layout,
        fuel,
    );
}

} // verus!
