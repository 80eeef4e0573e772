//! Tree size estimation.
//!
//! A dry run over the game from a root state that performs exactly the byte
//! accounting the tree allocator will perform, without allocating anything.
//! The recursion is bounded by an explicit `fuel` depth; a build driven with
//! the same fuel lands on the same account, which is what makes the
//! estimate exact.

use vstd::prelude::*;

use crate::arena::{sat_add, sat_add_usize, sat_alloc_end, sat_mul_usize, DummyArena};
use crate::game::{Game, ParameterMapping, Stage};
use crate::node::{node_layout_wf, NodeLayout};

verus! {

/// An account of a (partial) tree: action node count, chance node count,
/// parameter slot count, and bytes used, in that order.  All four saturate
/// at `usize::MAX`.
pub type TreeAccount = (int, int, int, int);

/// The account after allocating one sibling group for the events of `s`:
/// chance nodes at a chance stage, otherwise action nodes followed by their
/// parameter block.
pub open spec fn group_account<G: Game>(
    g: G,
    s: G::State,
    acc: TreeAccount,
    layout: NodeLayout,
) -> TreeAccount {
    let n = g.spec_events(s).len() as int;
    if g.spec_stage(s).spec_is_chance() {
        (
            acc.0,
            sat_add(acc.1, n),
            acc.2,
            sat_alloc_end(acc.3, n, layout.chance.size as int, layout.chance.align as int),
        )
    } else {
        let k = <G::ParameterMapping as ParameterMapping>::spec_parameter_count(s);
        let after_nodes = sat_alloc_end(
            acc.3,
            n,
            layout.action.size as int,
            layout.action.align as int,
        );
        (
            sat_add(acc.0, n),
            acc.1,
            sat_add(acc.2, n * k),
            sat_alloc_end(
                after_nodes,
                n * k,
                layout.parameter.size as int,
                layout.parameter.align as int,
            ),
        )
    }
}

/// The account of the whole subtree below `s`, starting from `acc`: nothing
/// for a terminal state or exhausted fuel, else one sibling group for the
/// events of `s` followed, depth-first and in event order, by each child's
/// subtree.
pub open spec fn tree_account<G: Game>(
    g: G,
    s: G::State,
    acc: TreeAccount,
    layout: NodeLayout,
    fuel: nat,
) -> TreeAccount
    decreases fuel, 1int, 0int,
{
    if fuel == 0 || g.spec_stage(s).spec_is_terminal() {
        acc
    } else {
        children_account(g, s, g.spec_events(s), 0, group_account(g, s, acc, layout), layout, fuel)
    }
}

/// Folds `tree_account` over the children of `s` reached by `events[i..]`.
pub open spec fn children_account<G: Game>(
    g: G,
    s: G::State,
    events: Seq<crate::game::Event<G::Action, G::Chance>>,
    i: int,
    acc: TreeAccount,
    layout: NodeLayout,
    fuel: nat,
) -> TreeAccount
    decreases fuel, 0int, events.len() - i,
{
    if i < 0 || i >= events.len() || fuel == 0 {
        acc
    } else {
        let child = tree_account(g, g.spec_advance(s, events[i]), acc, layout, (fuel - 1) as nat);
        children_account(g, s, events, i + 1, child, layout, fuel)
    }
}

/// One sibling group never shrinks the byte account or pushes it past
/// `usize::MAX`.
pub proof fn lemma_group_account_len<G: Game>(
    g: G,
    s: G::State,
    acc: TreeAccount,
    layout: NodeLayout,
)
    requires
        node_layout_wf(layout),
        0 <= acc.3 <= usize::MAX,
    ensures
        acc.3 <= group_account(g, s, acc, layout).3 <= usize::MAX,
{
    let n = g.spec_events(s).len() as int;
    let k = <G::ParameterMapping as ParameterMapping>::spec_parameter_count(s);
    <G::ParameterMapping as ParameterMapping>::lemma_parameter_count_pos(s);
    assert(n * k >= 0) by (nonlinear_arith)
        requires
            n >= 0,
            k >= 1,
    ;
    crate::arena::lemma_alloc_end_grows(
        acc.3,
        n,
        layout.chance.size as int,
        layout.chance.align as int,
    );
    crate::arena::lemma_alloc_end_grows(
        acc.3,
        n,
        layout.action.size as int,
        layout.action.align as int,
    );
    let after_nodes = sat_alloc_end(acc.3, n, layout.action.size as int, layout.action.align as int);
    crate::arena::lemma_alloc_end_grows(
        after_nodes,
        n * k,
        layout.parameter.size as int,
        layout.parameter.align as int,
    );
}

/// A subtree never shrinks the byte account or pushes it past
/// `usize::MAX`.
pub proof fn lemma_tree_account_len<G: Game>(
    g: G,
    s: G::State,
    acc: TreeAccount,
    layout: NodeLayout,
    fuel: nat,
)
    requires
        node_layout_wf(layout),
        0 <= acc.3 <= usize::MAX,
    ensures
        acc.3 <= tree_account(g, s, acc, layout, fuel).3 <= usize::MAX,
    decreases fuel, 1int, 0int,
{
    if fuel == 0 || g.spec_stage(s).spec_is_terminal() {
    } else {
        lemma_group_account_len(g, s, acc, layout);
        lemma_children_account_len(
            g,
            s,
            g.spec_events(s),
            0,
            group_account(g, s, acc, layout),
            layout,
            fuel,
        );
    }
}

/// The children fold never shrinks the byte account or pushes it past
/// `usize::MAX`.
pub proof fn lemma_children_account_len<G: Game>(
    g: G,
    s: G::State,
    events: Seq<crate::game::Event<G::Action, G::Chance>>,
    i: int,
    acc: TreeAccount,
    layout: NodeLayout,
    fuel: nat,
)
    requires
        node_layout_wf(layout),
        0 <= acc.3 <= usize::MAX,
    ensures
        acc.3 <= children_account(g, s, events, i, acc, layout, fuel).3 <= usize::MAX,
    decreases fuel, 0int, events.len() - i,
{
    if i < 0 || i >= events.len() || fuel == 0 {
    } else {
        lemma_tree_account_len(g, g.spec_advance(s, events[i]), acc, layout, (fuel - 1) as nat);
        lemma_children_account_len(
            g,
            s,
            events,
            i + 1,
            tree_account(g, g.spec_advance(s, events[i]), acc, layout, (fuel - 1) as nat),
            layout,
            fuel,
        );
    }
}

/// The account a fresh estimate or build starts from: one root node in an
/// empty arena.
pub open spec fn root_account(layout: NodeLayout) -> TreeAccount {
    (0, 0, 0, sat_alloc_end(0, 1, layout.root.size as int, layout.root.align as int))
}

/// Walks a game from a root state, counting nodes, parameter slots and
/// bytes exactly as the allocator lays them out.
pub struct TreeEstimator {
    action: usize,
    chance: usize,
    parameters: usize,
    arena: DummyArena,
    layout: NodeLayout,
}

impl TreeEstimator {
    pub closed spec fn spec_account(&self) -> TreeAccount {
        (self.action as int, self.chance as int, self.parameters as int, self.arena.spec_len())
    }

    pub closed spec fn spec_layout(&self) -> NodeLayout {
        self.layout
    }

    spec fn inv(&self) -> bool {
        &&& self.arena.spec_capacity() is None
        &&& node_layout_wf(self.layout)
    }

    /// Estimates the tree below `root_state`, expanded to at most `fuel`
    /// sibling generations.  A `fuel` smaller than the game's depth counts
    /// the tree truncated to that many generations, exactly as a build
    /// driven with the same fuel would lay it out.
    pub fn from_root<G: Game>(
        g: &G,
        root_state: &G::State,
        layout: NodeLayout,
        fuel: usize,
    ) -> (est: TreeEstimator)
        requires
            g.spec_state_wf(*root_state),
            node_layout_wf(layout),
        ensures
            est.spec_layout() == layout,
            est.spec_account() == tree_account::<G>(
                *g,
                *root_state,
                root_account(layout),
                layout,
                fuel as nat,
            ),
    {
        let mut est = TreeEstimator {
            action: 0,
            chance: 0,
            parameters: 0,
            arena: DummyArena::infinite(),
            layout,
        };
        let root_result = est.arena.allocate(1, layout.root.size, layout.root.align);
        proof {
            assert(root_result is Ok);
        }
        est.build_tree(g, root_state, fuel);
        est
    }

    pub fn action_nodes(&self) -> (n: usize)
        ensures
            n == self.spec_account().0,
    {
        self.action
    }

    pub fn chance_nodes(&self) -> (n: usize)
        ensures
            n == self.spec_account().1,
    {
        self.chance
    }

    pub fn parameters(&self) -> (n: usize)
        ensures
            n == self.spec_account().2,
    {
        self.parameters
    }

    /// The minimum and maximum number of bytes the tree will occupy: the
    /// maximum adds the worst-case alignment offset of the root node.
    pub fn memory_bounds(&self) -> (r: (usize, usize))
        requires
            self.spec_layout().root.align >= 1,
        ensures
            r.0 == self.spec_account().3,
            r.1 == sat_add(self.spec_account().3, self.spec_layout().root.align - 1),
    {
        let len = self.arena.len();
        let max = match len.checked_add(self.layout.root.align - 1) {
            Some(m) => m,
            None => usize::MAX,
        };
        (len, max)
    }

    /// One level of the dry run: count the sibling group for `state`, then
    /// recurse into each non-terminal child.
    fn build_tree<G: Game>(&mut self, g: &G, state: &G::State, fuel: usize)
        requires
            g.spec_state_wf(*state),
            old(self).inv(),
        ensures
            final(self).inv(),
            final(self).spec_layout() == old(self).spec_layout(),
            final(self).spec_account() == tree_account::<G>(
                *g,
                *state,
                old(self).spec_account(),
                old(self).spec_layout(),
                fuel as nat,
            ),
        decreases fuel,
    {
        if fuel == 0 {
            return ;
        }
        let stage = g.get_stage(state);
        if stage.is_terminal() {
            return ;
        }
        let mut events: Vec<crate::game::Event<G::Action, G::Chance>> = Vec::new();
        g.populate_events(state, &mut events);
        proof {
            g.lemma_game_wf(*state, events@[0]);
        }

        if stage.is_chance() {
            let n = events.len();
            self.chance = sat_add_usize(self.chance, n);
            let chance_result = self.arena.allocate(
                n,
                self.layout.chance.size,
                self.layout.chance.align,
            );
            proof {
                assert(chance_result is Ok);
            }
        } else {
            let n = events.len();
            let k = <G::ParameterMapping as ParameterMapping>::get_parameter_count(state);
            let node_result = self.arena.allocate(
                n,
                self.layout.action.size,
                self.layout.action.align,
            );
            proof {
                assert(node_result is Ok);
            }
            self.action = sat_add_usize(self.action, n);
            let slots = sat_mul_usize(n, k);
            let ghost old_parameters = self.parameters as int;
            self.parameters = sat_add_usize(self.parameters, slots);
            proof {
                if n * k > usize::MAX {
                    assert(sat_add(old_parameters, n as int * k as int) == sat_add(
                        old_parameters,
                        usize::MAX as int,
                    ));
                }
            }
            let ghost after_nodes = self.arena.spec_len();
            let param_result = self.arena.allocate(
                slots,
                self.layout.parameter.size,
                self.layout.parameter.align,
            );
            proof {
                assert(param_result is Ok);
                if n * k > usize::MAX {
                    lemma_sat_alloc_end_over(
                        after_nodes,
                        n as int,
                        k as int,
                        self.layout.parameter.size as int,
                        self.layout.parameter.align as int,
                    );
                }
            }
        }

        proof {
            assert(self.spec_account() == group_account(
                *g,
                *state,
                old(self).spec_account(),
                old(self).spec_layout(),
            ));
        }

        let ghost mid_account = self.spec_account();
        let ghost evs = events@;
        let mut i: usize = 0;
        while i < events.len()
            invariant
                g.spec_state_wf(*state),
                self.inv(),
                self.spec_layout() == old(self).spec_layout(),
                fuel >= 1,
                !g.spec_stage(*state).spec_is_terminal(),
                g.spec_stage(*state).spec_is_action() ==> !g.spec_stage(
                    *state,
                ).spec_is_chance(),
                g.spec_stage(*state).spec_is_action() ==> forall|j: int|
                    0 <= j < evs.len() ==> evs[j] is Action,
                g.spec_stage(*state).spec_is_chance() ==> forall|j: int|
                    0 <= j < evs.len() ==> evs[j] is Chance,
                events@ == evs,
                i <= evs.len(),
                children_account(
                    *g,
                    *state,
                    evs,
                    i as int,
                    self.spec_account(),
                    self.spec_layout(),
                    fuel as nat,
                ) == children_account(
                    *g,
                    *state,
                    evs,
                    0,
                    mid_account,
                    self.spec_layout(),
                    fuel as nat,
                ),
            decreases evs.len() - i,
        {
            let mut next_state = g.clone_state(state);
            proof {
                let st = g.spec_stage(*state);
                st.lemma_partition();
            }
            g.advance_state(&mut next_state, events[i]);
            self.build_tree(g, &next_state, fuel - 1);
            i = i + 1;
        }
    }
}

/// When the slot count overflows, the saturated count reaches the same
/// saturated byte account as the true one.
proof fn lemma_sat_alloc_end_over(len: int, n: int, k: int, size: int, align: int)
    requires
        n >= 0,
        k >= 0,
        size >= 1,
        align >= 1,
        n * k > usize::MAX,
    ensures
        sat_alloc_end(len, n * k, size, align) == sat_alloc_end(len, usize::MAX as int, size, align),
{
    assert(n * k * size >= n * k) by (nonlinear_arith)
        requires
            size >= 1,
            n * k > 0,
    ;
    assert(usize::MAX as int * size >= usize::MAX) by (nonlinear_arith)
        requires
            size >= 1,
    ;
}


} // verus!
