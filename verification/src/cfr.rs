//! Counterfactual regret minimization over an arena-backed tree.
//!
//! All mutable learning state lives in the tree's parameter slots: one
//! [`CfrParameter`] per action, per information partition.  Probabilities —
//! reach, strategies, chance weights — are fixed-point values scaled by
//! [`WEIGHT_SCALE`]; utilities flow through the recursion scaled the same
//! way and clamped to [`UTILITY_CAP`].  Cumulative updates saturate instead
//! of wrapping, which keeps every strategy sum non-decreasing.

use vstd::prelude::*;

use crate::allocator::NodeArena;
use crate::game::{Event, Game, Parameter, ParameterMapping, Stage, UTILITY_LIMIT, WEIGHT_SCALE};
use crate::node::{NodePtr, NodeSlot};
use crate::volatile::Volatile;

verus! {

/// Cap on the magnitude of scaled utilities inside the solver.
pub const UTILITY_CAP: i64 = 2147483648 * 65536;

/// One per-action learning cell: cumulative regret and cumulative average
/// strategy, both fixed-point.
#[derive(Clone, Copy, Debug)]
pub struct CfrParameter {
    pub cumulative_regret: Volatile<i64>,
    pub cumulative_strategy: Volatile<i64>,
}

impl Parameter for CfrParameter {
    open spec fn spec_init() -> CfrParameter {
        CfrParameter {
            cumulative_regret: Volatile { value: 0 },
            cumulative_strategy: Volatile { value: 0 },
        }
    }

    fn initialize(count: usize) -> (v: Vec<CfrParameter>) {
        let mut v: Vec<CfrParameter> = Vec::new();
        let mut i: usize = 0;
        while i < count
            invariant
                i <= count,
                v@.len() == i,
                forall|j: int| 0 <= j < i ==> v@[j] == CfrParameter::spec_init(),
            decreases count - i,
        {
            v.push(CfrParameter { cumulative_regret: Volatile::new(0), cumulative_strategy: Volatile::new(0) });
            i = i + 1;
        }
        v
    }
}

/// `a + b` clipped to the `i64` range.
pub open spec fn spec_sat_add_i64(a: int, b: int) -> int {
    if a + b > i64::MAX {
        i64::MAX as int
    } else if a + b < i64::MIN {
        i64::MIN as int
    } else {
        a + b
    }
}

fn sat_add_i64(a: i64, b: i64) -> (r: i64)
    ensures
        r == spec_sat_add_i64(a as int, b as int),
        b >= 0 ==> r >= a,
        b <= 0 ==> r <= a,
{
    match a.checked_add(b) {
        Some(s) => s,
        None => {
            if b > 0 {
                i64::MAX
            } else {
                i64::MIN
            }
        },
    }
}

/// Clamp into `[-UTILITY_CAP, UTILITY_CAP]`.
fn clamp_cap(x: i128) -> (r: i64)
    ensures
        -UTILITY_CAP <= r <= UTILITY_CAP,
        -UTILITY_CAP <= x <= UTILITY_CAP ==> r == x,
        r == spec_clamp_cap(x as int),
{
    let cap = UTILITY_CAP as i128;
    if x > cap {
        UTILITY_CAP
    } else if x < -cap {
        -UTILITY_CAP
    } else {
        x as i64
    }
}

/// Truncating division of a scaled product by the fixed-point scale.
fn div_scale(prod: i128) -> (r: i128)
    requires
        prod > i128::MIN,
    ensures
        prod >= 0 ==> r == (prod as int) / (WEIGHT_SCALE as int) && 0 <= r <= prod,
        prod < 0 ==> r == -((-(prod as int)) / (WEIGHT_SCALE as int)) && prod <= r <= 0,
        r == spec_div_scale(prod as int),
{
    let s = WEIGHT_SCALE as i128;
    if prod >= 0 {
        prod / s
    } else {
        let q = (-prod) / s;
        proof {
            assert(0 <= (-(prod as int)) / (WEIGHT_SCALE as int) <= -(prod as int))
                by (nonlinear_arith)
                requires
                    prod < 0,
            ;
        }
        -q
    }
}

/// A product of two scaled factors, divided back by the scale, stays below
/// the larger bound.
proof fn lemma_scaled_product_bound(w: int, u: int, cap: int)
    requires
        0 <= w <= WEIGHT_SCALE,
        -cap <= u <= cap,
        cap >= 0,
    ensures
        -(cap * WEIGHT_SCALE) <= w * u <= cap * WEIGHT_SCALE,
        w * u >= 0 ==> (w * u) / (WEIGHT_SCALE as int) <= cap,
        w * u < 0 ==> (-(w * u)) / (WEIGHT_SCALE as int) <= cap,
{
    assert(-(cap * WEIGHT_SCALE) <= w * u <= cap * WEIGHT_SCALE) by (nonlinear_arith)
        requires
            0 <= w <= WEIGHT_SCALE,
            -cap <= u <= cap,
            cap >= 0,
    ;
    assert(w * u >= 0 ==> (w * u) / (WEIGHT_SCALE as int) <= cap) by (nonlinear_arith)
        requires
            w * u <= cap * WEIGHT_SCALE,
            cap >= 0,
    ;
    assert(w * u < 0 ==> (-(w * u)) / (WEIGHT_SCALE as int) <= cap) by (nonlinear_arith)
        requires
            -(cap * WEIGHT_SCALE) <= w * u,
            cap >= 0,
    ;
}

/// Sum of a sequence of positive-part regrets.
pub open spec fn sum_of_u64(s: Seq<u64>) -> int
    decreases s.len(),
{
    if s.len() == 0 {
        0
    } else {
        sum_of_u64(s.drop_last()) + s.last()
    }
}

/// Every element of a sum of non-negative terms is at most the sum.
proof fn lemma_sum_elem(s: Seq<u64>, j: int)
    requires
        0 <= j < s.len(),
    ensures
        s[j] <= sum_of_u64(s),
        sum_of_u64(s) >= 0,
    decreases s.len(),
{
    if s.len() == 1 {
        assert(sum_of_u64(s.drop_last()) == 0);
    } else {
        if j < s.len() - 1 {
            lemma_sum_elem(s.drop_last(), j);
        } else {
            lemma_sum_nonneg(s.drop_last());
        }
    }
}

proof fn lemma_sum_nonneg(s: Seq<u64>)
    ensures
        sum_of_u64(s) >= 0,
    decreases s.len(),
{
    if s.len() > 0 {
        lemma_sum_nonneg(s.drop_last());
    }
}


/// The cumulative strategy stored for the sibling at `p`, at slot `idx`.
pub open spec fn strategy_value_at<A, C>(
    nodes: Seq<NodeSlot<A, C>>,
    params: Seq<CfrParameter>,
    p: NodePtr,
    idx: int,
) -> int {
    match nodes[p.0 as int] {
        NodeSlot::Action(a) => params[a.parameters + idx].cumulative_strategy.spec_value() as int,
        _ => 0,
    }
}

/// Sum of the stored strategies across a sibling chain at one slot.
pub open spec fn chain_strategy_sum<A, C>(
    nodes: Seq<NodeSlot<A, C>>,
    params: Seq<CfrParameter>,
    chain: Seq<NodePtr>,
    idx: int,
) -> int
    decreases chain.len(),
{
    if chain.len() == 0 {
        0
    } else {
        chain_strategy_sum(nodes, params, chain.drop_last(), idx) + strategy_value_at(
            nodes,
            params,
            chain.last(),
            idx,
        )
    }
}

/// The chain heads an action group whose members all carry slot `idx`,
/// holding a non-negative cumulative strategy there.
pub open spec fn action_group_readable<A, C>(
    nodes: Seq<NodeSlot<A, C>>,
    params: Seq<CfrParameter>,
    chain: Seq<NodePtr>,
    idx: int,
) -> bool {
    forall|m: int|
        0 <= m < chain.len() ==> (match nodes[#[trigger] chain[m].0 as int] {
            NodeSlot::Action(a) => idx < a.parameter_count && 0 <= params[a.parameters
                + idx].cumulative_strategy.spec_value(),
            _ => false,
        })
}


/// In a freshly built tree every stored parameter is the initializer, so
/// every chain strategy reads zero and the group sum is zero: by
/// `get_strategy`'s contract the reported strategy is then exactly
/// `WEIGHT_SCALE / n` in every slot.
pub proof fn lemma_fresh_tree_uniform<A, C>(
    nodes: Seq<NodeSlot<A, C>>,
    params: Seq<CfrParameter>,
    chain: Seq<NodePtr>,
    idx: int,
)
    requires
        forall|i: int|
            0 <= i < params.len() ==> #[trigger] params[i] == CfrParameter::spec_init(),
        forall|m: int|
            0 <= m < chain.len() ==> (match nodes[(#[trigger] chain[m]).0 as int] {
                NodeSlot::Action(a) => 0 <= a.parameters + idx < params.len(),
                _ => true,
            }),
    ensures
        forall|m: int|
            0 <= m < chain.len() ==> strategy_value_at(nodes, params, #[trigger] chain[m], idx)
                == 0,
        chain_strategy_sum(nodes, params, chain, idx) == 0,
    decreases chain.len(),
{
    assert forall|m: int|
        0 <= m < chain.len() implies strategy_value_at(nodes, params, #[trigger] chain[m], idx)
            == 0 by {
        match nodes[chain[m].0 as int] {
            NodeSlot::Action(a) => {
                assert(params[a.parameters + idx] == CfrParameter::spec_init());
            },
            _ => {},
        }
    }
    if chain.len() > 0 {
        lemma_fresh_tree_uniform(nodes, params, chain.drop_last(), idx);
        assert(chain.drop_last().push(chain.last()) =~= chain);
    }
}


/// A readable action group stays readable across solver passes: iteration
/// only ever grows the stored strategies, so non-negativity is preserved.
pub proof fn lemma_readable_preserved<A, C>(
    nodes: Seq<NodeSlot<A, C>>,
    pre: Seq<CfrParameter>,
    post: Seq<CfrParameter>,
    chain: Seq<NodePtr>,
    idx: int,
)
    requires
        action_group_readable(nodes, pre, chain, idx),
        strategies_monotone(pre, post),
        forall|m: int|
            0 <= m < chain.len() ==> (match nodes[(#[trigger] chain[m]).0 as int] {
                NodeSlot::Action(a) => 0 <= a.parameters + idx < pre.len(),
                _ => true,
            }),
    ensures
        action_group_readable(nodes, post, chain, idx),
{
    assert forall|m: int|
        0 <= m < chain.len() implies (match nodes[(#[trigger] chain[m]).0 as int] {
        NodeSlot::Action(a) => idx < a.parameter_count && 0 <= post[a.parameters
            + idx].cumulative_strategy.spec_value(),
        _ => false,
    }) by {
        match nodes[chain[m].0 as int] {
            NodeSlot::Action(a) => {
                assert(pre[a.parameters + idx].cumulative_strategy.spec_value() <= post[
                    a.parameters + idx].cumulative_strategy.spec_value());
            },
            _ => {},
        }
    }
}

/// Every chain member's strategy is at most the chain's sum.
proof fn lemma_chain_sum_elem<A, C>(
    nodes: Seq<NodeSlot<A, C>>,
    params: Seq<CfrParameter>,
    chain: Seq<NodePtr>,
    idx: int,
    j: int,
)
    requires
        0 <= j < chain.len(),
        forall|m: int|
            0 <= m < chain.len() ==> strategy_value_at(nodes, params, #[trigger] chain[m], idx)
                >= 0,
    ensures
        strategy_value_at(nodes, params, chain[j], idx) <= chain_strategy_sum(
            nodes,
            params,
            chain,
            idx,
        ),
        chain_strategy_sum(nodes, params, chain, idx) >= 0,
    decreases chain.len(),
{
    if chain.len() == 1 {
        assert(chain_strategy_sum(nodes, params, chain.drop_last(), idx) == 0);
    } else {
        if j < chain.len() - 1 {
            lemma_chain_sum_elem(nodes, params, chain.drop_last(), idx, j);
        } else {
            lemma_chain_sum_elem(nodes, params, chain.drop_last(), idx, 0);
        }
    }
}

/// All per-action strategy sums are at least their old values: iteration
/// only ever adds a non-negative reach to a cumulative strategy.
pub open spec fn strategies_monotone(pre: Seq<CfrParameter>, post: Seq<CfrParameter>) -> bool {
    &&& post.len() == pre.len()
    &&& forall|i: int|
        0 <= i < pre.len() ==> pre[i].cumulative_strategy.spec_value() <= #[trigger] post[i].cumulative_strategy.spec_value()
}


/// `slot_ok` of the arena's tables at `p`, for proofs that read one slot.
pub open spec fn slot_ok_for<A: Copy, C: Copy>(
    arena: &NodeArena<A, C, CfrParameter>,
    p: NodePtr,
) -> bool {
    crate::allocator::slot_ok(arena.spec_nodes(), arena.spec_params().len() as int, p.0 as int)
}


/// Sum of a sequence of non-negative integers.
pub open spec fn sum_of_int(vals: Seq<int>) -> int
    decreases vals.len(),
{
    if vals.len() == 0 {
        0
    } else {
        sum_of_int(vals.drop_last()) + vals.last()
    }
}

/// Sum of the normalized entries `get_strategy` writes for the given
/// stored values: each value scaled by `WEIGHT_SCALE` and divided by the
/// group total.
pub open spec fn sum_scaled(vals: Seq<int>, total: int) -> int
    decreases vals.len(),
{
    if vals.len() == 0 {
        0
    } else {
        sum_scaled(vals.drop_last(), total) + (vals.last() * WEIGHT_SCALE) / total
    }
}

/// Splitting a numerator across a division loses less than one unit.
proof fn lemma_div_parts(a: int, b: int, d: int)
    requires
        a >= 0,
        b >= 0,
        d > 0,
    ensures
        a / d + b / d <= (a + b) / d <= a / d + b / d + 1,
{
    let qa = a / d;
    let ra = a % d;
    let qb = b / d;
    let rb = b % d;
    vstd::arithmetic::div_mod::lemma_fundamental_div_mod(a, d);
    vstd::arithmetic::div_mod::lemma_fundamental_div_mod(b, d);
    assert(0 <= ra < d && 0 <= rb < d) by (nonlinear_arith)
        requires
            d > 0,
            a >= 0,
            b >= 0,
            ra == a % d,
            rb == b % d,
    ;
    vstd::arithmetic::div_mod::lemma_hoist_over_denominator(ra + rb, qa + qb, d as nat);
    assert(a + b == (ra + rb) + (qa + qb) * d) by (nonlinear_arith)
        requires
            a == d * qa + ra,
            b == d * qb + rb,
    ;
    assert(0 <= (ra + rb) / d <= 1) by (nonlinear_arith)
        requires
            0 <= ra + rb < 2 * d,
            d > 0,
    ;
}

/// The scaled-and-divided entries sum to within one unit per entry of the
/// scaled sum.
proof fn lemma_sum_scaled_bounds(vals: Seq<int>, total: int)
    requires
        total > 0,
        forall|m: int| 0 <= m < vals.len() ==> 0 <= #[trigger] vals[m],
    ensures
        (sum_of_int(vals) * WEIGHT_SCALE) / total - vals.len() <= sum_scaled(vals, total) <= (
        sum_of_int(vals) * WEIGHT_SCALE) / total,
        sum_scaled(vals, total) >= 0,
    decreases vals.len(),
{
    if vals.len() == 0 {
    } else {
        let head = vals.drop_last();
        lemma_sum_scaled_bounds(head, total);
        assert(sum_of_int(vals) == sum_of_int(head) + vals.last());
        assert(sum_of_int(head) >= 0) by {
            lemma_sum_of_int_nonneg(head);
        }
        assert(sum_of_int(vals) * WEIGHT_SCALE == sum_of_int(head) * WEIGHT_SCALE + vals.last()
            * WEIGHT_SCALE) by (nonlinear_arith)
            requires
                sum_of_int(vals) == sum_of_int(head) + vals.last(),
        ;
        assert(vals.last() * WEIGHT_SCALE >= 0) by (nonlinear_arith)
            requires
                vals.last() >= 0,
        ;
        assert(sum_of_int(head) * WEIGHT_SCALE >= 0) by (nonlinear_arith)
            requires
                sum_of_int(head) >= 0,
        ;
        lemma_div_parts(sum_of_int(head) * WEIGHT_SCALE, vals.last() * WEIGHT_SCALE, total);
        assert((vals.last() * WEIGHT_SCALE) / total >= 0) by (nonlinear_arith)
            requires
                vals.last() * WEIGHT_SCALE >= 0,
                total > 0,
        ;
    }
}

proof fn lemma_sum_of_int_nonneg(vals: Seq<int>)
    requires
        forall|m: int| 0 <= m < vals.len() ==> 0 <= #[trigger] vals[m],
    ensures
        sum_of_int(vals) >= 0,
    decreases vals.len(),
{
    if vals.len() > 0 {
        lemma_sum_of_int_nonneg(vals.drop_last());
    }
}

/// Strategy normalization: when a group's cumulative strategies have the
/// positive sum `total`, the normalized entries `get_strategy` writes —
/// value times `WEIGHT_SCALE` over `total` — add up to at most one, and
/// lose at most one rounding unit per child.
pub proof fn lemma_strategy_normalization(vals: Seq<int>, total: int)
    requires
        total == sum_of_int(vals),
        total > 0,
        forall|m: int| 0 <= m < vals.len() ==> 0 <= #[trigger] vals[m],
    ensures
        WEIGHT_SCALE - vals.len() <= sum_scaled(vals, total) <= WEIGHT_SCALE,
{
    lemma_sum_scaled_bounds(vals, total);
    assert((total * (WEIGHT_SCALE as int)) / total == WEIGHT_SCALE) by {
        vstd::arithmetic::div_mod::lemma_div_multiples_vanish(WEIGHT_SCALE as int, total);
    }
}


/// The number of players as a length, for building utility vectors.
pub open spec fn spec_players_of<G: Game>(g: G) -> nat {
    if g.spec_players() >= 0 {
        g.spec_players() as nat
    } else {
        0
    }
}

/// The slot the solver selects below a state: the information partition's
/// index at an action stage, zero elsewhere.
pub open spec fn spec_param_index_for<G: Game>(g: G, s: G::State) -> int {
    if g.spec_stage(s).spec_is_action() {
        <G::ParameterMapping as ParameterMapping>::spec_parameter_index(s)
    } else {
        0
    }
}

/// Truncating division of a scaled product by the fixed-point scale.
pub open spec fn spec_div_scale(prod: int) -> int {
    if prod >= 0 {
        prod / (WEIGHT_SCALE as int)
    } else {
        -((-prod) / (WEIGHT_SCALE as int))
    }
}

/// Clamp into `[-UTILITY_CAP, UTILITY_CAP]`.
pub open spec fn spec_clamp_cap(x: int) -> int {
    if x > UTILITY_CAP {
        UTILITY_CAP as int
    } else if x < -UTILITY_CAP {
        -UTILITY_CAP as int
    } else {
        x
    }
}

/// The parameter table with `add` credited (saturating) to one slot's
/// cumulative strategy.
pub open spec fn spec_bump_strategy(params: Seq<CfrParameter>, slot: int, add: int) -> Seq<
    CfrParameter,
> {
    if 0 <= slot < params.len() {
        params.update(
            slot,
            CfrParameter {
                cumulative_regret: params[slot].cumulative_regret,
                cumulative_strategy: Volatile {
                    value: spec_sat_add_i64(
                        params[slot].cumulative_strategy.spec_value() as int,
                        add,
                    ) as i64,
                },
            },
        )
    } else {
        params
    }
}

/// Each player's terminal payoff, scaled to fixed point.
pub open spec fn spec_scaled_utilities<G: Game>(g: G, s: G::State) -> Seq<i64> {
    Seq::new(spec_players_of(g), |q: int| (g.spec_utility(s, q) * WEIGHT_SCALE) as i64)
}

/// The action children of a group, walked up to chain position `m`: for
/// each action node whose parameter vector covers `idx`, its pointer, its
/// action and its selected slot.
pub open spec fn spec_act_filter<A, C>(
    nodes: Seq<NodeSlot<A, C>>,
    chain: Seq<NodePtr>,
    idx: int,
    m: int,
) -> Seq<(NodePtr, A, int)>
    decreases m,
{
    if m <= 0 {
        Seq::empty()
    } else {
        let rest = spec_act_filter(nodes, chain, idx, m - 1);
        let c = chain[m - 1];
        if 0 <= c.0 < nodes.len() {
            match nodes[c.0 as int] {
                NodeSlot::Action(a) => {
                    if idx < a.parameter_count {
                        rest.push((c, a.action, a.parameters + idx))
                    } else {
                        rest
                    }
                },
                _ => rest,
            }
        } else {
            rest
        }
    }
}

/// The positive part of one stored cumulative regret.
pub open spec fn spec_pos_regret(params: Seq<CfrParameter>, slot: int) -> u64 {
    if 0 <= slot < params.len() && params[slot].cumulative_regret.spec_value() > 0 {
        params[slot].cumulative_regret.spec_value() as u64
    } else {
        0
    }
}

/// The positive regrets of the filtered action children, in order.
pub open spec fn spec_act_regs<A>(
    params: Seq<CfrParameter>,
    acts: Seq<(NodePtr, A, int)>,
) -> Seq<u64> {
    Seq::new(acts.len(), |i: int| spec_pos_regret(params, acts[i].2))
}

/// The counterfactual reach of everyone but `player`, folded over the
/// first `q` reach entries.
pub open spec fn spec_cf_upto(reach: Seq<u64>, player: int, q: int) -> int
    decreases q,
{
    if q <= 0 {
        WEIGHT_SCALE as int
    } else {
        let prev = spec_cf_upto(reach, player, q - 1);
        if q - 1 == player {
            prev
        } else {
            (prev * reach[q - 1]) / (WEIGHT_SCALE as int)
        }
    }
}

/// The parameter table after the first `r` regret updates of one action
/// visit: child `r-1`'s slot is credited (saturating) with
/// `(u_r - u) * cf`, scaled back down.
pub open spec fn spec_regret_upd<A>(
    params: Seq<CfrParameter>,
    acts: Seq<(NodePtr, A, int)>,
    pu: Seq<i64>,
    u_p: i64,
    cf: int,
    r: int,
) -> Seq<CfrParameter>
    decreases r,
{
    if r <= 0 {
        params
    } else {
        let prev = spec_regret_upd(params, acts, pu, u_p, cf, r - 1);
        let slot = acts[r - 1].2;
        let delta = spec_div_scale((pu[r - 1] - u_p) * cf);
        if 0 <= slot < prev.len() {
            prev.update(
                slot,
                CfrParameter {
                    cumulative_regret: Volatile {
                        value: spec_sat_add_i64(
                            prev[slot].cumulative_regret.spec_value() as int,
                            delta,
                        ) as i64,
                    },
                    cumulative_strategy: prev[slot].cumulative_strategy,
                },
            )
        } else {
            prev
        }
    }
}

/// One counterfactual regret-matching pass below the sibling group of
/// `node`, exactly as `Cfr::cfr` performs it: the returned scaled
/// utilities and the parameter table it leaves behind.
pub open spec fn cfr_spec<G: Game>(
    g: G,
    nodes: Seq<NodeSlot<G::Action, G::Chance>>,
    params: Seq<CfrParameter>,
    node: int,
    s: G::State,
    idx: int,
    reach: Seq<u64>,
) -> (Seq<i64>, Seq<CfrParameter>)
    decreases nodes.len() - node, 3int, 0int,
{
    let players = spec_players_of(g);
    if g.spec_stage(s).spec_is_terminal() {
        (spec_scaled_utilities(g, s), params)
    } else {
        let chain = if 0 <= node < nodes.len() {
            crate::node::sibling_chain(nodes, nodes[node].spec_first_child())
        } else {
            Seq::empty()
        };
        let zero_acc = Seq::new(players, |q: int| 0int);
        if g.spec_stage(s).spec_is_chance() {
            let pass = spec_cfr_chance(g, nodes, params, node, s, reach, chain, 0, zero_acc);
            (Seq::new(players, |q: int| spec_clamp_cap(pass.0[q]) as i64), pass.1)
        } else {
            let player = (match g.spec_stage(s).spec_player() {
                Some(p) => p as int,
                None => 0,
            });
            let acts = spec_act_filter(nodes, chain, idx, chain.len() as int);
            let regs = spec_act_regs(params, acts);
            let rtot = sum_of_u64(regs);
            let pass = spec_cfr_action(
                g,
                nodes,
                params,
                node,
                s,
                reach,
                player,
                acts,
                regs,
                rtot,
                0,
                zero_acc,
                Seq::empty(),
            );
            let utilities = Seq::new(players, |q: int| spec_clamp_cap(pass.0[q]) as i64);
            let u_p = if 0 <= player < utilities.len() {
                utilities[player]
            } else {
                0
            };
            let cf = spec_cf_upto(reach, player, reach.len() as int);
            (utilities, spec_regret_upd(pass.2, acts, pass.1, u_p, cf, acts.len() as int))
        }
    }
}

/// The chance-stage pass from chain position `m`: each chance child's
/// subtree is solved in turn, its utilities weighted into the accumulator,
/// and the parameter table threaded through.
pub open spec fn spec_cfr_chance<G: Game>(
    g: G,
    nodes: Seq<NodeSlot<G::Action, G::Chance>>,
    params: Seq<CfrParameter>,
    node: int,
    s: G::State,
    reach: Seq<u64>,
    chain: Seq<NodePtr>,
    m: int,
    acc: Seq<int>,
) -> (Seq<int>, Seq<CfrParameter>)
    decreases nodes.len() - node, 2int, chain.len() - m,
{
    if m < 0 || m >= chain.len() {
        (acc, params)
    } else {
        let c = chain[m];
        if node < c.0 < nodes.len() {
            match nodes[c.0 as int] {
                NodeSlot::Chance(ch) => {
                    let w = g.spec_chance_weight(s, ch.result);
                    let s2 = g.spec_advance(s, Event::Chance(ch.result));
                    let idx2 = spec_param_index_for(g, s2);
                    let pass = cfr_spec(g, nodes, params, c.0 as int, s2, idx2, reach);
                    let acc2 = Seq::new(
                        acc.len(),
                        |q: int| acc[q] + spec_div_scale(w * pass.0[q]),
                    );
                    spec_cfr_chance(g, nodes, pass.1, node, s, reach, chain, m + 1, acc2)
                },
                _ => spec_cfr_chance(g, nodes, params, node, s, reach, chain, m + 1, acc),
            }
        } else {
            spec_cfr_chance(g, nodes, params, node, s, reach, chain, m + 1, acc)
        }
    }
}

/// The action-stage descent from filtered child `i`: the regret-matched
/// strategy weight from the pre-visit regrets, the strategy credit, the
/// recursion with the acting player's reach scaled, and the accumulation
/// of weighted utilities and of the player's per-child payoffs.
pub open spec fn spec_cfr_action<G: Game>(
    g: G,
    nodes: Seq<NodeSlot<G::Action, G::Chance>>,
    params: Seq<CfrParameter>,
    node: int,
    s: G::State,
    reach: Seq<u64>,
    player: int,
    acts: Seq<(NodePtr, G::Action, int)>,
    regs: Seq<u64>,
    rtot: int,
    i: int,
    acc: Seq<int>,
    pu: Seq<i64>,
) -> (Seq<int>, Seq<i64>, Seq<CfrParameter>)
    decreases nodes.len() - node, 2int, acts.len() - i,
{
    if i < 0 || i >= acts.len() {
        (acc, pu, params)
    } else {
        let sigma = if rtot > 0 {
            ((regs[i] as int) * (WEIGHT_SCALE as int)) / rtot
        } else {
            (WEIGHT_SCALE as int) / (acts.len() as int)
        };
        let nr_p = if 0 <= player < reach.len() {
            ((reach[player] as int) * sigma) / (WEIGHT_SCALE as int)
        } else {
            0
        };
        let reach2 = reach.update(player, nr_p as u64);
        let params_b = spec_bump_strategy(params, acts[i].2, nr_p);
        let c = acts[i].0;
        let s2 = g.spec_advance(s, Event::Action(acts[i].1));
        let idx2 = spec_param_index_for(g, s2);
        if node < c.0 < nodes.len() {
            let pass = cfr_spec(g, nodes, params_b, c.0 as int, s2, idx2, reach2);
            let u_player = if 0 <= player < pass.0.len() {
                pass.0[player]
            } else {
                0
            };
            let acc2 = Seq::new(acc.len(), |q: int| acc[q] + spec_div_scale(sigma * pass.0[q]));
            spec_cfr_action(
                g,
                nodes,
                pass.1,
                node,
                s,
                reach,
                player,
                acts,
                regs,
                rtot,
                i + 1,
                acc2,
                pu.push(u_player),
            )
        } else {
            spec_cfr_action(
                g,
                nodes,
                params_b,
                node,
                s,
                reach,
                player,
                acts,
                regs,
                rtot,
                i + 1,
                acc,
                pu.push(0),
            )
        }
    }
}

/// The regret-matching solver.  It carries no state of its own; everything
/// it learns lives in the tree's parameter slots.
pub struct Cfr;

impl Cfr {
    /// The parameter slot the state selects at an action stage; zero
    /// elsewhere.
    fn parameter_index_for<G: Game>(g: &G, state: &G::State) -> (idx: usize)
        requires
            g.spec_state_wf(*state),
        ensures
            g.spec_stage(*state).spec_is_action() ==> idx
                == <G::ParameterMapping as ParameterMapping>::spec_parameter_index(*state)
                && idx < <G::ParameterMapping as ParameterMapping>::spec_parameter_count(*state),
            !g.spec_stage(*state).spec_is_action() ==> idx == 0,
            idx == spec_param_index_for::<G>(*g, *state),
    {
        let stage = g.get_stage(state);
        proof {
            g.lemma_game_wf(*state, g.spec_events(*state)[0]);
        }
        if stage.is_action() {
            <G::ParameterMapping as ParameterMapping>::get_parameter_index(state)
        } else {
            0
        }
    }

    /// One counterfactual regret-matching pass below `node`, whose children
    /// realize the events of `state`.  Returns each player's expected
    /// scaled utility; updates the children's cumulative strategies (only
    /// upward) and cumulative regrets in place.  The returned utilities and
    /// the parameter table left behind are exactly [`cfr_spec`]'s: terminal
    /// payoffs scaled; chance children weight-averaged; action children
    /// visited with their regret-matched strategies, credited with the
    /// acting player's scaled reach, and charged their counterfactual
    /// regrets.
    pub fn cfr<G: Game>(
        &self,
        g: &G,
        arena: &mut NodeArena<G::Action, G::Chance, CfrParameter>,
        node: NodePtr,
        state: &G::State,
        parameter_index: usize,
        reach: &Vec<u64>,
    ) -> (utilities: Vec<i64>)
        requires
            old(arena).wf(),
            node.0 < old(arena).spec_nodes().len(),
            g.spec_state_wf(*state),
            reach@.len() == g.spec_players(),
            forall|q: int| 0 <= q < reach@.len() ==> #[trigger] reach@[q] <= WEIGHT_SCALE,
        ensures
            final(arena).wf(),
            final(arena).spec_nodes() == old(arena).spec_nodes(),
            final(arena).spec_offsets() == old(arena).spec_offsets(),
            final(arena).spec_layout() == old(arena).spec_layout(),
            final(arena).spec_capacity() == old(arena).spec_capacity(),
            final(arena).spec_account() == old(arena).spec_account(),
            strategies_monotone(old(arena).spec_params(), final(arena).spec_params()),
            utilities@.len() == g.spec_players(),
            forall|q: int|
                0 <= q < utilities@.len() ==> -UTILITY_CAP <= #[trigger] utilities@[q]
                    <= UTILITY_CAP,
            utilities@ == cfr_spec(
                *g,
                old(arena).spec_nodes(),
                old(arena).spec_params(),
                node.0 as int,
                *state,
                parameter_index as int,
                reach@,
            ).0,
            final(arena).spec_params() == cfr_spec(
                *g,
                old(arena).spec_nodes(),
                old(arena).spec_params(),
                node.0 as int,
                *state,
                parameter_index as int,
                reach@,
            ).1,
        decreases arena.spec_nodes().len() - node.0,
    {
        let players = g.players();
        let stage = g.get_stage(state);
        proof {
            g.lemma_game_wf(*state, g.spec_events(*state)[0]);
            g.spec_stage(*state).lemma_partition();
        }

        if stage.is_terminal() {
            let mut raw: Vec<i64> = Vec::new();
            let mut i: usize = 0;
            while i < players
                invariant
                    i <= players,
                    raw@.len() == i,
                decreases players - i,
            {
                raw.push(0);
                i = i + 1;
            }
            g.get_terminal_utilities(state, &mut raw);
            let mut utilities: Vec<i64> = Vec::new();
            let mut j: usize = 0;
            while j < players
                invariant
                    j <= players,
                    players == g.spec_players(),
                    raw@.len() == players,
                    g.spec_state_wf(*state),
                    g.spec_stage(*state).spec_is_terminal(),
                    forall|q: int|
                        0 <= q < players ==> #[trigger] raw@[q] == g.spec_utility(*state, q),
                    utilities@.len() == j,
                    forall|q: int|
                        0 <= q < j ==> -UTILITY_CAP <= #[trigger] utilities@[q] <= UTILITY_CAP,
                    forall|q: int|
                        0 <= q < j ==> #[trigger] utilities@[q] == (g.spec_utility(*state, q)
                            * WEIGHT_SCALE) as i64,
                decreases players - j,
            {
                let u = raw[j];
                proof {
                    g.lemma_game_wf(*state, g.spec_events(*state)[0]);
                    assert(-UTILITY_LIMIT <= u <= UTILITY_LIMIT);
                    assert(u * 65536 <= UTILITY_CAP && -UTILITY_CAP <= u * 65536)
                        by (nonlinear_arith)
                        requires
                            -UTILITY_LIMIT <= u <= UTILITY_LIMIT,
                    ;
                }
                utilities.push(u * 65536);
                j = j + 1;
            }
            proof {
                assert(utilities@ =~= spec_scaled_utilities(*g, *state));
                assert(utilities@ == cfr_spec(
                    *g,
                    old(arena).spec_nodes(),
                    old(arena).spec_params(),
                    node.0 as int,
                    *state,
                    parameter_index as int,
                    reach@,
                ).0);
                assert(arena.spec_params() == cfr_spec(
                    *g,
                    old(arena).spec_nodes(),
                    old(arena).spec_params(),
                    node.0 as int,
                    *state,
                    parameter_index as int,
                    reach@,
                ).1);
            }
            return utilities;
        }

        // Collect the sibling list of children once.
        let ghost nodes0 = arena.spec_nodes();
        let ghost chain0 = crate::node::sibling_chain(
            nodes0,
            nodes0[node.0 as int].spec_first_child(),
        );
        let mut children: Vec<NodePtr> = Vec::new();
        let mut cur = arena.slot(node).relationships().first_child;
        proof {
            assert(crate::node::link_ok(arena.spec_nodes(), node.0 as int));
            if chain0.len() > 0 {
                crate::node::lemma_chain_index(
                    nodes0,
                    nodes0[node.0 as int].spec_first_child(),
                    0,
                );
            } else {
                assert(nodes0[node.0 as int].spec_first_child() is None);
            }
        }
        while cur.is_some()
            invariant
                arena.wf(),
                arena.spec_nodes() == nodes0,
                node.0 < nodes0.len(),
                chain0 == crate::node::sibling_chain(
                    nodes0,
                    nodes0[node.0 as int].spec_first_child(),
                ),
                children@.len() <= chain0.len(),
                cur == (if children@.len() < chain0.len() {
                    Some(chain0[children@.len() as int])
                } else {
                    None::<NodePtr>
                }),
                forall|m: int|
                    0 <= m < children@.len() ==> #[trigger] children@[m] == chain0[m],
                (match cur {
                    Some(p) => node.0 < p.0 < nodes0.len(),
                    None => true,
                }),
                (match cur {
                    Some(p) => children@.len() + (nodes0.len() - p.0) <= nodes0.len() - node.0,
                    None => children@.len() <= nodes0.len() - node.0,
                }),
                forall|m: int|
                    0 <= m < children@.len() ==> node.0 < #[trigger] children@[m].0
                        < nodes0.len(),
            decreases (match cur {
                Some(p) => nodes0.len() - p.0,
                None => 0int,
            }),
        {
            let ghost m0 = children@.len() as int;
            proof {
                crate::node::lemma_chain_index(
                    nodes0,
                    nodes0[node.0 as int].spec_first_child(),
                    m0,
                );
            }
            let p = match cur {
                Some(p) => p,
                None => {
                    proof {
                        assert(false);
                    }
                    NodePtr(0)
                },
            };
            children.push(p);
            proof {
                assert(crate::node::link_ok(arena.spec_nodes(), p.0 as int));
            }
            cur = arena.slot(p).relationships().next_sibling;
        }
        proof {
            assert(children@ =~= chain0);
        }

        if stage.is_chance() {
            let mut acc: Vec<i128> = zeros_i128(players);
            let mut m: usize = 0;
            let ghost params0 = arena.spec_params();
            let ghost zero_acc = Seq::new(players as nat, |q: int| 0int);
            let ghost chance_full = spec_cfr_chance(
                *g,
                nodes0,
                params0,
                node.0 as int,
                *state,
                reach@,
                chain0,
                0,
                zero_acc,
            );
            proof {
                assert(acc@.map_values(|v: i128| v as int) =~= zero_acc);
            }
            while m < children.len()
                invariant
                    arena.wf(),
                    arena.spec_nodes() == nodes0,
                    arena.spec_offsets() == old(arena).spec_offsets(),
                    arena.spec_layout() == old(arena).spec_layout(),
                    arena.spec_capacity() == old(arena).spec_capacity(),
                    arena.spec_account() == old(arena).spec_account(),
                    nodes0 == old(arena).spec_nodes(),
                    params0 == old(arena).spec_params(),
                    strategies_monotone(old(arena).spec_params(), arena.spec_params()),
                    g.spec_state_wf(*state),
                    g.spec_stage(*state).spec_is_chance(),
                    !g.spec_stage(*state).spec_is_action(),
                    !g.spec_stage(*state).spec_is_terminal(),
                    players == g.spec_players(),
                    1 <= players,
                    reach@.len() == players,
                    forall|q: int| 0 <= q < reach@.len() ==> #[trigger] reach@[q] <= WEIGHT_SCALE,
                    m <= children@.len(),
                    children@ == chain0,
                    forall|i: int|
                        0 <= i < children@.len() ==> node.0 < #[trigger] children@[i].0
                            < nodes0.len(),
                    acc@.len() == players,
                    forall|q: int|
                        0 <= q < players ==> -((m as int) * UTILITY_CAP) <= #[trigger] acc@[q]
                            <= (m as int) * UTILITY_CAP,
                    children@.len() <= nodes0.len(),
                    zero_acc == Seq::new(players as nat, |q: int| 0int),
                    chance_full == spec_cfr_chance(
                        *g,
                        nodes0,
                        params0,
                        node.0 as int,
                        *state,
                        reach@,
                        chain0,
                        0,
                        zero_acc,
                    ),
                    spec_cfr_chance(
                        *g,
                        nodes0,
                        arena.spec_params(),
                        node.0 as int,
                        *state,
                        reach@,
                        chain0,
                        m as int,
                        acc@.map_values(|v: i128| v as int),
                    ) == chance_full,
                decreases children@.len() - m,
            {
                let child = children[m];
                let ghost params_pre = arena.spec_params();
                let ghost acc_pre = acc@;
                let outcome = match arena.slot(child) {
                    NodeSlot::Chance(c) => Some(c.result),
                    _ => None,
                };
                match outcome {
                    Some(c) => {
                        let w = g.get_chance_weight(state, c);
                        let mut next_state = g.clone_state(state);
                        g.advance_state(&mut next_state, Event::Chance(c));
                        let next_index = Self::parameter_index_for(g, &next_state);
                        let child_u = self.cfr(g, arena, child, &next_state, next_index, reach);
                        let ghost pass = cfr_spec(
                            *g,
                            nodes0,
                            params_pre,
                            child.0 as int,
                            g.spec_advance(*state, Event::Chance(c)),
                            next_index as int,
                            reach@,
                        );
                        proof {
                            assert(child_u@ == pass.0);
                            assert(arena.spec_params() == pass.1);
                        }
                        let mut q: usize = 0;
                        while q < players
                            invariant
                                players == g.spec_players(),
                                acc@.len() == players,
                                child_u@.len() == players,
                                q <= players,
                                w <= WEIGHT_SCALE,
                                w == g.spec_chance_weight(*state, c),
                                m < children@.len(),
                                children@.len() <= nodes0.len(),
                                nodes0.len() <= usize::MAX,
                                acc_pre.len() == players,
                                forall|i: int|
                                    0 <= i < child_u@.len() ==> -UTILITY_CAP
                                        <= #[trigger] child_u@[i] <= UTILITY_CAP,
                                forall|i: int|
                                    q <= i < players ==> #[trigger] acc@[i] == acc_pre[i],
                                forall|i: int|
                                    q <= i < players ==> -((m as int) * UTILITY_CAP)
                                        <= #[trigger] acc@[i] <= (m as int) * UTILITY_CAP,
                                forall|i: int|
                                    0 <= i < q ==> -((m + 1) as int * UTILITY_CAP)
                                        <= #[trigger] acc@[i] <= (m + 1) as int * UTILITY_CAP,
                                forall|i: int|
                                    0 <= i < q ==> #[trigger] acc@[i] as int == acc_pre[i] as int
                                        + spec_div_scale((w as int) * (child_u@[i] as int)),
                            decreases players - q,
                        {
                            proof {
                                lemma_scaled_product_bound(
                                    w as int,
                                    child_u@[q as int] as int,
                                    UTILITY_CAP as int,
                                );
                            }
                            let prod = (w as i128) * (child_u[q] as i128);
                            let term = div_scale(prod);
                            let v = acc[q] + term;
                            proof {
                                assert((m + 1) as int * UTILITY_CAP == (m as int) * UTILITY_CAP
                                    + UTILITY_CAP) by (nonlinear_arith);
                            }
                            acc[q] = v;
                            q = q + 1;
                        }
                        proof {
                            let acc2 = Seq::new(
                                acc_pre.map_values(|v: i128| v as int).len(),
                                |x: int| acc_pre.map_values(|v: i128| v as int)[x]
                                    + spec_div_scale((w as int) * (pass.0[x] as int)),
                            );
                            assert(acc@.map_values(|v: i128| v as int) =~= acc2);
                            assert(spec_cfr_chance(
                                *g,
                                nodes0,
                                params_pre,
                                node.0 as int,
                                *state,
                                reach@,
                                chain0,
                                m as int,
                                acc_pre.map_values(|v: i128| v as int),
                            ) == spec_cfr_chance(
                                *g,
                                nodes0,
                                arena.spec_params(),
                                node.0 as int,
                                *state,
                                reach@,
                                chain0,
                                m as int + 1,
                                acc@.map_values(|v: i128| v as int),
                            ));
                        }
                    },
                    None => {
                        proof {
                            assert(spec_cfr_chance(
                                *g,
                                nodes0,
                                params_pre,
                                node.0 as int,
                                *state,
                                reach@,
                                chain0,
                                m as int,
                                acc_pre.map_values(|v: i128| v as int),
                            ) == spec_cfr_chance(
                                *g,
                                nodes0,
                                arena.spec_params(),
                                node.0 as int,
                                *state,
                                reach@,
                                chain0,
                                m as int + 1,
                                acc@.map_values(|v: i128| v as int),
                            ));
                        }
                    },
                }
                m = m + 1;
            }
            proof {
                assert(spec_cfr_chance(
                    *g,
                    nodes0,
                    arena.spec_params(),
                    node.0 as int,
                    *state,
                    reach@,
                    chain0,
                    chain0.len() as int,
                    acc@.map_values(|v: i128| v as int),
                ) == (acc@.map_values(|v: i128| v as int), arena.spec_params()));
                assert(acc@.map_values(|v: i128| v as int) == chance_full.0);
                assert(arena.spec_params() == chance_full.1);
            }
            let mut utilities: Vec<i64> = Vec::new();
            let mut q: usize = 0;
            while q < players
                invariant
                    q <= players,
                    acc@.len() == players,
                    utilities@.len() == q,
                    forall|i: int|
                        0 <= i < q ==> -UTILITY_CAP <= #[trigger] utilities@[i] <= UTILITY_CAP,
                    forall|i: int|
                        0 <= i < q ==> #[trigger] utilities@[i] == spec_clamp_cap(
                            acc@[i] as int,
                        ) as i64,
                decreases players - q,
            {
                utilities.push(clamp_cap(acc[q]));
                q = q + 1;
            }
            proof {
                let full = cfr_spec(
                    *g,
                    old(arena).spec_nodes(),
                    old(arena).spec_params(),
                    node.0 as int,
                    *state,
                    parameter_index as int,
                    reach@,
                );
                assert(utilities@ =~= Seq::new(
                    spec_players_of(*g),
                    |x: int| spec_clamp_cap(chance_full.0[x]) as i64,
                ));
                assert(utilities@ == full.0);
                assert(arena.spec_params() == full.1);
            }
            return utilities;
        }

        // Action stage.
        let player = match stage.player_to_act() {
            Some(p) => p,
            None => {
                proof {
                    assert(false);
                }
                0
            },
        };

        // Phase 1: gather the action children, their selected slots and
        // positive regrets.
        let ghost params0 = arena.spec_params();
        let mut act_children: Vec<NodePtr> = Vec::new();
        let mut act_actions: Vec<G::Action> = Vec::new();
        let mut act_slots: Vec<usize> = Vec::new();
        let mut regs: Vec<u64> = Vec::new();
        let mut m: usize = 0;
        while m < children.len()
            invariant
                arena.wf(),
                arena.spec_nodes() == nodes0,
                arena.spec_params() == params0,
                node.0 < nodes0.len(),
                m <= children@.len(),
                children@ == chain0,
                forall|i: int|
                    0 <= i < children@.len() ==> node.0 < #[trigger] children@[i].0
                        < nodes0.len(),
                children@.len() <= nodes0.len(),
                act_children@.len() <= m,
                act_children@.len() == act_actions@.len(),
                act_children@.len() == act_slots@.len(),
                act_children@.len() == regs@.len(),
                forall|i: int|
                    0 <= i < act_children@.len() ==> node.0 < #[trigger] act_children@[i].0
                        < nodes0.len(),
                forall|i: int|
                    0 <= i < act_slots@.len() ==> #[trigger] act_slots@[i]
                        < arena.spec_params().len(),
                forall|i: int| 0 <= i < regs@.len() ==> #[trigger] regs@[i] <= i64::MAX,
                ({
                    let f = spec_act_filter(nodes0, chain0, parameter_index as int, m as int);
                    &&& act_children@.len() == f.len()
                    &&& forall|i: int|
                        0 <= i < f.len() ==> (#[trigger] f[i]).0 == act_children@[i] && f[i].1
                            == act_actions@[i] && f[i].2 == act_slots@[i]
                }),
                forall|i: int|
                    0 <= i < regs@.len() ==> #[trigger] regs@[i] == spec_pos_regret(
                        params0,
                        act_slots@[i] as int,
                    ),
            decreases children@.len() - m,
        {
            let child = children[m];
            let info = match arena.slot(child) {
                NodeSlot::Action(a) => {
                    if parameter_index < a.parameter_count {
                        Some((a.action, a.parameters + parameter_index))
                    } else {
                        None
                    }
                },
                _ => None,
            };
            match info {
                Some((action, slot_idx)) => {
                    let reg = arena.param(slot_idx).cumulative_regret.read();
                    let pos: u64 = if reg > 0 {
                        reg as u64
                    } else {
                        0
                    };
                    act_children.push(child);
                    act_actions.push(action);
                    act_slots.push(slot_idx);
                    regs.push(pos);
                },
                None => {},
            }
            m = m + 1;
        }

        let ghost acts_g = spec_act_filter(
            nodes0,
            chain0,
            parameter_index as int,
            chain0.len() as int,
        );
        proof {
            assert(regs@ =~= spec_act_regs(params0, acts_g));
        }

        let count = act_children.len();
        let mut rtot: u128 = 0;
        let mut t: usize = 0;
        while t < count
            invariant
                t <= count,
                count == regs@.len(),
                forall|i: int| 0 <= i < regs@.len() ==> #[trigger] regs@[i] <= i64::MAX,
                rtot == sum_of_u64(regs@.take(t as int)),
                rtot <= (t as int) * (i64::MAX as int),
            decreases count - t,
        {
            proof {
                assert(regs@.take(t as int + 1).drop_last() =~= regs@.take(t as int));
                assert((t as int + 1) * (i64::MAX as int) == (t as int) * (i64::MAX as int)
                    + i64::MAX) by (nonlinear_arith);
            }
            rtot = rtot + (regs[t] as u128);
            t = t + 1;
        }
        proof {
            assert(regs@.take(count as int) =~= regs@);
        }

        // Phase 2: descend into each action child, weighting by its
        // regret-matched strategy and crediting its cumulative strategy.
        let ghost zero_acc = Seq::new(players as nat, |q: int| 0int);
        let ghost action_full = spec_cfr_action(
            *g,
            nodes0,
            params0,
            node.0 as int,
            *state,
            reach@,
            player as int,
            acts_g,
            regs@,
            rtot as int,
            0,
            zero_acc,
            Seq::empty(),
        );
        let mut acc: Vec<i128> = zeros_i128(players);
        let mut player_utils: Vec<i64> = Vec::new();
        proof {
            assert(acc@.map_values(|v: i128| v as int) =~= zero_acc);
            assert(player_utils@ =~= Seq::<i64>::empty());
        }
        let mut i: usize = 0;
        while i < count
            invariant
                arena.wf(),
                arena.spec_nodes() == nodes0,
                arena.spec_offsets() == old(arena).spec_offsets(),
                arena.spec_layout() == old(arena).spec_layout(),
                arena.spec_capacity() == old(arena).spec_capacity(),
                arena.spec_account() == old(arena).spec_account(),
                nodes0 == old(arena).spec_nodes(),
                params0 == old(arena).spec_params(),
                strategies_monotone(old(arena).spec_params(), arena.spec_params()),
                g.spec_state_wf(*state),
                g.spec_stage(*state).spec_is_action(),
                !g.spec_stage(*state).spec_is_chance(),
                !g.spec_stage(*state).spec_is_terminal(),
                players == g.spec_players(),
                1 <= players,
                player < players,
                reach@.len() == players,
                forall|q: int| 0 <= q < reach@.len() ==> #[trigger] reach@[q] <= WEIGHT_SCALE,
                node.0 < nodes0.len(),
                i <= count,
                count == act_children@.len(),
                count == act_actions@.len(),
                count == act_slots@.len(),
                count == regs@.len(),
                count <= nodes0.len(),
                count == acts_g.len(),
                forall|x: int|
                    0 <= x < acts_g.len() ==> (#[trigger] acts_g[x]).0 == act_children@[x]
                        && acts_g[x].1 == act_actions@[x] && acts_g[x].2 == act_slots@[x],
                forall|q: int|
                    0 <= q < act_children@.len() ==> node.0 < #[trigger] act_children@[q].0
                        < nodes0.len(),
                forall|q: int|
                    0 <= q < act_slots@.len() ==> #[trigger] act_slots@[q]
                        < arena.spec_params().len(),
                forall|q: int| 0 <= q < regs@.len() ==> #[trigger] regs@[q] <= i64::MAX,
                rtot == sum_of_u64(regs@),
                acc@.len() == players,
                forall|q: int|
                    0 <= q < players ==> -((i as int) * UTILITY_CAP) <= #[trigger] acc@[q]
                        <= (i as int) * UTILITY_CAP,
                player_utils@.len() == i,
                forall|q: int|
                    0 <= q < player_utils@.len() ==> -UTILITY_CAP <= #[trigger] player_utils@[q]
                        <= UTILITY_CAP,
                action_full == spec_cfr_action(
                    *g,
                    nodes0,
                    params0,
                    node.0 as int,
                    *state,
                    reach@,
                    player as int,
                    acts_g,
                    regs@,
                    rtot as int,
                    0,
                    zero_acc,
                    Seq::empty(),
                ),
                spec_cfr_action(
                    *g,
                    nodes0,
                    arena.spec_params(),
                    node.0 as int,
                    *state,
                    reach@,
                    player as int,
                    acts_g,
                    regs@,
                    rtot as int,
                    i as int,
                    acc@.map_values(|v: i128| v as int),
                    player_utils@,
                ) == action_full,
            decreases count - i,
        {
            let ghost params_pre = arena.spec_params();
            let ghost acc_pre0 = acc@;
            let ghost pu_pre = player_utils@;
            let sigma: u64 = if rtot > 0 {
                proof {
                    lemma_sum_elem(regs@, i as int);
                    assert((regs@[i as int] as int) * (WEIGHT_SCALE as int) <= (rtot as int) * (
                    WEIGHT_SCALE as int)) by (nonlinear_arith)
                        requires
                            regs@[i as int] <= rtot,
                    ;
                    assert(((regs@[i as int] as int) * (WEIGHT_SCALE as int)) / (rtot as int)
                        <= WEIGHT_SCALE) by (nonlinear_arith)
                        requires
                            (regs@[i as int] as int) * (WEIGHT_SCALE as int) <= (rtot as int) * (
                            WEIGHT_SCALE as int),
                            rtot > 0,
                    ;
                }
                (((regs[i] as u128) * (WEIGHT_SCALE as u128)) / rtot) as u64
            } else {
                proof {
                    assert((WEIGHT_SCALE as int) / (count as int) <= WEIGHT_SCALE)
                        by (nonlinear_arith)
                        requires
                            count >= 1,
                    ;
                }
                WEIGHT_SCALE / (count as u64)
            };
            let next_reach_p: u64 = {
                proof {
                    assert((reach@[player as int] as int) * (sigma as int) <= (
                    WEIGHT_SCALE as int) * (WEIGHT_SCALE as int)) by (nonlinear_arith)
                        requires
                            reach@[player as int] <= WEIGHT_SCALE,
                            sigma <= WEIGHT_SCALE,
                    ;
                    assert(((reach@[player as int] as int) * (sigma as int)) / (
                    WEIGHT_SCALE as int) <= WEIGHT_SCALE) by (nonlinear_arith)
                        requires
                            (reach@[player as int] as int) * (sigma as int) <= (
                            WEIGHT_SCALE as int) * (WEIGHT_SCALE as int),
                    ;
                }
                (reach[player] * sigma) / WEIGHT_SCALE
            };
            let mut next_reach: Vec<u64> = Vec::new();
            let mut q: usize = 0;
            while q < players
                invariant
                    q <= players,
                    reach@.len() == players,
                    player < players,
                    next_reach_p <= WEIGHT_SCALE,
                    forall|x: int| 0 <= x < reach@.len() ==> #[trigger] reach@[x] <= WEIGHT_SCALE,
                    next_reach@.len() == q,
                    forall|x: int|
                        0 <= x < q ==> #[trigger] next_reach@[x] <= WEIGHT_SCALE,
                    forall|x: int|
                        0 <= x < q ==> #[trigger] next_reach@[x] == (if x == player {
                            next_reach_p
                        } else {
                            reach@[x]
                        }),
                decreases players - q,
            {
                if q == player {
                    next_reach.push(next_reach_p);
                } else {
                    next_reach.push(reach[q]);
                }
                q = q + 1;
            }
            proof {
                assert(next_reach@ =~= reach@.update(player as int, next_reach_p));
            }

            // Credit the cumulative strategy with the player's new reach.
            let slot_idx = act_slots[i];
            let p_old = arena.param(slot_idx);
            let bumped = CfrParameter {
                cumulative_regret: p_old.cumulative_regret,
                cumulative_strategy: Volatile::new(
                    sat_add_i64(p_old.cumulative_strategy.read(), next_reach_p as i64),
                ),
            };
            arena.set_param(slot_idx, bumped);
            proof {
                assert(arena.spec_params() =~= spec_bump_strategy(
                    params_pre,
                    slot_idx as int,
                    next_reach_p as int,
                ));
            }

            let mut next_state = g.clone_state(state);
            g.advance_state(&mut next_state, Event::Action(act_actions[i]));
            let next_index = Self::parameter_index_for(g, &next_state);
            let child_u = self.cfr(
                g,
                arena,
                act_children[i],
                &next_state,
                next_index,
                &next_reach,
            );
            let ghost pass = cfr_spec(
                *g,
                nodes0,
                spec_bump_strategy(params_pre, slot_idx as int, next_reach_p as int),
                act_children@[i as int].0 as int,
                g.spec_advance(*state, Event::Action(act_actions@[i as int])),
                next_index as int,
                next_reach@,
            );
            proof {
                assert(child_u@ == pass.0);
                assert(arena.spec_params() == pass.1);
            }
            player_utils.push(child_u[player]);

            let ghost acc_pre = acc@;
            let mut w: usize = 0;
            while w < players
                invariant
                    players == g.spec_players(),
                    acc@.len() == players,
                    child_u@.len() == players,
                    w <= players,
                    sigma <= WEIGHT_SCALE,
                    i < count,
                    count <= nodes0.len(),
                    nodes0.len() <= usize::MAX,
                    acc_pre.len() == players,
                    forall|x: int|
                        0 <= x < child_u@.len() ==> -UTILITY_CAP <= #[trigger] child_u@[x]
                            <= UTILITY_CAP,
                    forall|x: int|
                        w <= x < players ==> #[trigger] acc@[x] == acc_pre[x],
                    forall|x: int|
                        w <= x < players ==> -((i as int) * UTILITY_CAP) <= #[trigger] acc@[x]
                            <= (i as int) * UTILITY_CAP,
                    forall|x: int|
                        0 <= x < w ==> -((i + 1) as int * UTILITY_CAP) <= #[trigger] acc@[x]
                            <= (i + 1) as int * UTILITY_CAP,
                    forall|x: int|
                        0 <= x < w ==> #[trigger] acc@[x] as int == acc_pre[x] as int
                            + spec_div_scale((sigma as int) * (child_u@[x] as int)),
                decreases players - w,
            {
                proof {
                    lemma_scaled_product_bound(
                        sigma as int,
                        child_u@[w as int] as int,
                        UTILITY_CAP as int,
                    );
                }
                let prod = (sigma as i128) * (child_u[w] as i128);
                let term = div_scale(prod);
                let v = acc[w] + term;
                proof {
                    assert((i + 1) as int * UTILITY_CAP == (i as int) * UTILITY_CAP + UTILITY_CAP)
                        by (nonlinear_arith);
                }
                acc[w] = v;
                w = w + 1;
            }
            proof {
                let acc2 = Seq::new(
                    acc_pre.map_values(|v: i128| v as int).len(),
                    |x: int| acc_pre.map_values(|v: i128| v as int)[x] + spec_div_scale(
                        (sigma as int) * (pass.0[x] as int),
                    ),
                );
                assert(acc@.map_values(|v: i128| v as int) =~= acc2);
                assert(player_utils@ =~= pu_pre.push(pass.0[player as int]));
                assert(spec_cfr_action(
                    *g,
                    nodes0,
                    params_pre,
                    node.0 as int,
                    *state,
                    reach@,
                    player as int,
                    acts_g,
                    regs@,
                    rtot as int,
                    i as int,
                    acc_pre0.map_values(|v: i128| v as int),
                    pu_pre,
                ) == spec_cfr_action(
                    *g,
                    nodes0,
                    arena.spec_params(),
                    node.0 as int,
                    *state,
                    reach@,
                    player as int,
                    acts_g,
                    regs@,
                    rtot as int,
                    i as int + 1,
                    acc@.map_values(|v: i128| v as int),
                    player_utils@,
                ));
            }
            i = i + 1;
        }
        proof {
            assert(spec_cfr_action(
                *g,
                nodes0,
                arena.spec_params(),
                node.0 as int,
                *state,
                reach@,
                player as int,
                acts_g,
                regs@,
                rtot as int,
                count as int,
                acc@.map_values(|v: i128| v as int),
                player_utils@,
            ) == (acc@.map_values(|v: i128| v as int), player_utils@, arena.spec_params()));
            assert(acc@.map_values(|v: i128| v as int) == action_full.0);
            assert(player_utils@ == action_full.1);
            assert(arena.spec_params() == action_full.2);
        }

        let mut utilities: Vec<i64> = Vec::new();
        let mut q: usize = 0;
        while q < players
            invariant
                q <= players,
                acc@.len() == players,
                utilities@.len() == q,
                forall|x: int|
                    0 <= x < q ==> -UTILITY_CAP <= #[trigger] utilities@[x] <= UTILITY_CAP,
                forall|x: int|
                    0 <= x < q ==> #[trigger] utilities@[x] == spec_clamp_cap(
                        acc@[x] as int,
                    ) as i64,
            decreases players - q,
        {
            utilities.push(clamp_cap(acc[q]));
            q = q + 1;
        }
        proof {
            assert(utilities@ =~= Seq::new(
                spec_players_of(*g),
                |x: int| spec_clamp_cap(action_full.0[x]) as i64,
            ));
        }

        // Counterfactual reach of everyone but the acting player.
        let mut cf: u64 = WEIGHT_SCALE;
        let mut q2: usize = 0;
        while q2 < players
            invariant
                q2 <= players,
                reach@.len() == players,
                forall|x: int| 0 <= x < reach@.len() ==> #[trigger] reach@[x] <= WEIGHT_SCALE,
                cf <= WEIGHT_SCALE,
                cf == spec_cf_upto(reach@, player as int, q2 as int),
            decreases players - q2,
        {
            if q2 != player {
                proof {
                    assert((cf as int) * (reach@[q2 as int] as int) <= (WEIGHT_SCALE as int) * (
                    WEIGHT_SCALE as int)) by (nonlinear_arith)
                        requires
                            cf <= WEIGHT_SCALE,
                            reach@[q2 as int] <= WEIGHT_SCALE,
                    ;
                    assert(((cf as int) * (reach@[q2 as int] as int)) / (WEIGHT_SCALE as int)
                        <= WEIGHT_SCALE) by (nonlinear_arith)
                        requires
                            (cf as int) * (reach@[q2 as int] as int) <= (WEIGHT_SCALE as int) * (
                            WEIGHT_SCALE as int),
                    ;
                }
                cf = (cf * reach[q2]) / WEIGHT_SCALE;
            }
            q2 = q2 + 1;
        }

        // Phase 3: update cumulative regrets against the expected utility.
        let ghost params_ph2 = arena.spec_params();
        let u_p = utilities[player];
        let mut r: usize = 0;
        while r < count
            invariant
                arena.wf(),
                arena.spec_nodes() == nodes0,
                arena.spec_offsets() == old(arena).spec_offsets(),
                arena.spec_layout() == old(arena).spec_layout(),
                arena.spec_capacity() == old(arena).spec_capacity(),
                arena.spec_account() == old(arena).spec_account(),
                nodes0 == old(arena).spec_nodes(),
                strategies_monotone(old(arena).spec_params(), arena.spec_params()),
                r <= count,
                count == act_slots@.len(),
                count == player_utils@.len(),
                count == acts_g.len(),
                forall|x: int|
                    0 <= x < acts_g.len() ==> (#[trigger] acts_g[x]).2 == act_slots@[x],
                cf <= WEIGHT_SCALE,
                -UTILITY_CAP <= u_p <= UTILITY_CAP,
                forall|x: int|
                    0 <= x < player_utils@.len() ==> -UTILITY_CAP <= #[trigger] player_utils@[x]
                        <= UTILITY_CAP,
                forall|x: int|
                    0 <= x < act_slots@.len() ==> #[trigger] act_slots@[x]
                        < arena.spec_params().len(),
                arena.spec_params() == spec_regret_upd(
                    params_ph2,
                    acts_g,
                    player_utils@,
                    u_p,
                    cf as int,
                    r as int,
                ),
            decreases count - r,
        {
            let ghost params_pre3 = arena.spec_params();
            let diff = (player_utils[r] as i128) - (u_p as i128);
            proof {
                lemma_scaled_product_bound(cf as int, diff as int, 2 * (UTILITY_CAP as int));
                assert((diff as int) * (cf as int) == (cf as int) * (diff as int))
                    by (nonlinear_arith);
            }
            let prod = diff * (cf as i128);
            let delta128 = div_scale(prod);
            let delta = delta128 as i64;
            let slot_idx = act_slots[r];
            let p_old = arena.param(slot_idx);
            let updated = CfrParameter {
                cumulative_regret: Volatile::new(
                    sat_add_i64(p_old.cumulative_regret.read(), delta),
                ),
                cumulative_strategy: p_old.cumulative_strategy,
            };
            arena.set_param(slot_idx, updated);
            proof {
                assert(arena.spec_params() =~= spec_regret_upd(
                    params_ph2,
                    acts_g,
                    player_utils@,
                    u_p,
                    cf as int,
                    r as int + 1,
                ));
            }
            r = r + 1;
        }
        proof {
            let full = cfr_spec(
                *g,
                old(arena).spec_nodes(),
                old(arena).spec_params(),
                node.0 as int,
                *state,
                parameter_index as int,
                reach@,
            );
            assert(utilities@ == full.0);
            assert(arena.spec_params() == full.1);
        }

        utilities
    }

    /// The slot `get_strategy` reads: the given alternate, or the one the
    /// state's information partition selects.
    pub open spec fn spec_chosen_index<G: Game>(
        g: G,
        s: G::State,
        alternate_index: Option<usize>,
    ) -> int {
        match alternate_index {
            Some(i) => i as int,
            None => if g.spec_stage(s).spec_is_action() {
                <G::ParameterMapping as ParameterMapping>::spec_parameter_index(s)
            } else {
                0
            },
        }
    }

    /// Writes the normalized average strategy of the action group headed by
    /// `node`'s first child, at the chosen slot: each entry is the child's
    /// cumulative strategy normalized by the group sum, or exactly
    /// `WEIGHT_SCALE / n` for every child while the sum is still zero.
    pub fn get_strategy<G: Game>(
        &self,
        g: &G,
        arena: &NodeArena<G::Action, G::Chance, CfrParameter>,
        node: NodePtr,
        state: &G::State,
        alternate_index: Option<usize>,
        strategy: &mut Vec<u64>,
    )
        requires
            arena.wf(),
            node.0 < arena.spec_nodes().len(),
            g.spec_state_wf(*state),
            (match alternate_index {
                Some(i) => i < <G::ParameterMapping as ParameterMapping>::spec_parameter_count(
                    *state,
                ),
                None => true,
            }),
            action_group_readable(
                arena.spec_nodes(),
                arena.spec_params(),
                crate::node::sibling_chain(
                    arena.spec_nodes(),
                    arena.spec_nodes()[node.0 as int].spec_first_child(),
                ),
                Self::spec_chosen_index(*g, *state, alternate_index),
            ),
            old(strategy)@.len() == crate::node::sibling_chain(
                arena.spec_nodes(),
                arena.spec_nodes()[node.0 as int].spec_first_child(),
            ).len(),
        ensures
            ({
                let idx = Self::spec_chosen_index(*g, *state, alternate_index);
                let chain = crate::node::sibling_chain(
                    arena.spec_nodes(),
                    arena.spec_nodes()[node.0 as int].spec_first_child(),
                );
                let total = chain_strategy_sum(arena.spec_nodes(), arena.spec_params(), chain, idx);
                &&& final(strategy)@.len() == chain.len()
                &&& forall|m: int|
                    0 <= m < chain.len() ==> #[trigger] final(strategy)@[m] == (if total > 0 {
                        strategy_value_at(arena.spec_nodes(), arena.spec_params(), chain[m], idx)
                            * WEIGHT_SCALE / total
                    } else {
                        WEIGHT_SCALE as int / chain.len() as int
                    })
                &&& forall|m: int|
                    0 <= m < chain.len() ==> #[trigger] final(strategy)@[m] <= WEIGHT_SCALE
            }),
    {
        let ghost nodes = arena.spec_nodes();
        let ghost params = arena.spec_params();
        let ghost idx_g = Self::spec_chosen_index(*g, *state, alternate_index);
        let ghost chain = crate::node::sibling_chain(
            nodes,
            nodes[node.0 as int].spec_first_child(),
        );
        let idx = match alternate_index {
            Some(i) => i,
            None => Self::parameter_index_for(g, state),
        };

        let mut vals: Vec<u64> = Vec::new();
        let mut cur = arena.slot(node).relationships().first_child;
        proof {
            assert(crate::node::link_ok(nodes, node.0 as int));
            if chain.len() > 0 {
                crate::node::lemma_chain_index(
                    nodes,
                    nodes[node.0 as int].spec_first_child(),
                    0,
                );
            } else {
                assert(nodes[node.0 as int].spec_first_child() is None);
            }
        }
        while vals.len() < strategy.len()
            invariant
                arena.wf(),
                nodes == arena.spec_nodes(),
                params == arena.spec_params(),
                node.0 < nodes.len(),
                chain == crate::node::sibling_chain(
                    nodes,
                    nodes[node.0 as int].spec_first_child(),
                ),
                strategy@.len() == chain.len(),
                idx == idx_g,
                action_group_readable(nodes, params, chain, idx_g),
                vals@.len() <= chain.len(),
                cur == (if vals@.len() < chain.len() {
                    Some(chain[vals@.len() as int])
                } else {
                    None::<NodePtr>
                }),
                forall|j: int|
                    0 <= j < vals@.len() ==> #[trigger] vals@[j] == strategy_value_at(
                        nodes,
                        params,
                        chain[j],
                        idx_g,
                    ),
                forall|j: int| 0 <= j < vals@.len() ==> #[trigger] vals@[j] <= i64::MAX,
            decreases chain.len() - vals@.len(),
        {
            let ghost m = vals@.len() as int;
            proof {
                crate::node::lemma_chain_index(
                    nodes,
                    nodes[node.0 as int].spec_first_child(),
                    m,
                );
            }
            let p = match cur {
                Some(p) => p,
                None => {
                    proof {
                        assert(false);
                    }
                    NodePtr(0)
                },
            };
            proof {
                assert(slot_ok_for(arena, p));
            }
            let value: u64 = match arena.slot(p) {
                NodeSlot::Action(a) => {
                    let slot_idx = a.parameters + idx;
                    let v = arena.param(slot_idx).cumulative_strategy.read();
                    v as u64
                },
                _ => {
                    proof {
                        assert(false);
                    }
                    0
                },
            };
            vals.push(value);
            cur = arena.slot(p).relationships().next_sibling;
        }

        let n = vals.len();
        let mut total: u128 = 0;
        let mut t: usize = 0;
        while t < n
            invariant
                t <= n,
                n == vals@.len(),
                n == chain.len(),
                nodes == arena.spec_nodes(),
                params == arena.spec_params(),
                forall|j: int|
                    0 <= j < vals@.len() ==> #[trigger] vals@[j] == strategy_value_at(
                        nodes,
                        params,
                        chain[j],
                        idx_g,
                    ),
                forall|j: int| 0 <= j < vals@.len() ==> #[trigger] vals@[j] <= i64::MAX,
                total == chain_strategy_sum(nodes, params, chain.take(t as int), idx_g),
                total <= (t as int) * (i64::MAX as int),
            decreases n - t,
        {
            proof {
                assert(chain.take(t as int + 1).drop_last() =~= chain.take(t as int));
                assert(chain.take(t as int + 1).last() == chain[t as int]);
                assert((t as int + 1) * (i64::MAX as int) == (t as int) * (i64::MAX as int)
                    + i64::MAX) by (nonlinear_arith);
            }
            total = total + (vals[t] as u128);
            t = t + 1;
        }
        proof {
            assert(chain.take(n as int) =~= chain);
        }

        let mut m: usize = 0;
        while m < n
            invariant
                m <= n,
                n == vals@.len(),
                n == chain.len(),
                nodes == arena.spec_nodes(),
                params == arena.spec_params(),
                strategy@.len() == chain.len(),
                idx == idx_g,
                total == chain_strategy_sum(nodes, params, chain, idx_g),
                forall|j: int|
                    0 <= j < vals@.len() ==> #[trigger] vals@[j] == strategy_value_at(
                        nodes,
                        params,
                        chain[j],
                        idx_g,
                    ),
                forall|j: int| 0 <= j < vals@.len() ==> #[trigger] vals@[j] <= i64::MAX,
                forall|j: int|
                    0 <= j < m ==> #[trigger] strategy@[j] == (if total > 0 {
                        strategy_value_at(nodes, params, chain[j], idx_g) * WEIGHT_SCALE / (
                        total as int)
                    } else {
                        WEIGHT_SCALE as int / chain.len() as int
                    }),
                forall|j: int| 0 <= j < m ==> #[trigger] strategy@[j] <= WEIGHT_SCALE,
            decreases n - m,
        {
            let entry: u64 = if total > 0 {
                proof {
                    assert forall|x: int|
                        0 <= x < chain.len() implies strategy_value_at(
                        nodes,
                        params,
                        #[trigger] chain[x],
                        idx_g,
                    ) >= 0 by {
                        assert(vals@[x] == strategy_value_at(nodes, params, chain[x], idx_g));
                    }
                    lemma_chain_sum_elem(nodes, params, chain, idx_g, m as int);
                    assert((vals@[m as int] as int) * (WEIGHT_SCALE as int) <= (total as int) * (
                    WEIGHT_SCALE as int)) by (nonlinear_arith)
                        requires
                            vals@[m as int] <= total,
                    ;
                    assert(((vals@[m as int] as int) * (WEIGHT_SCALE as int)) / (total as int)
                        <= WEIGHT_SCALE) by (nonlinear_arith)
                        requires
                            (vals@[m as int] as int) * (WEIGHT_SCALE as int) <= (total as int) * (
                            WEIGHT_SCALE as int),
                            total > 0,
                    ;
                }
                (((vals[m] as u128) * (WEIGHT_SCALE as u128)) / total) as u64
            } else {
                proof {
                    assert((WEIGHT_SCALE as int) / (n as int) <= WEIGHT_SCALE)
                        by (nonlinear_arith)
                        requires
                            n >= 1,
                    ;
                }
                WEIGHT_SCALE / (n as u64)
            };
            strategy[m] = entry;
            m = m + 1;
        }
    }

    /// One solver iteration from the root for one sampled state: every
    /// player starts with full reach, the parameters end exactly as one
    /// [`cfr_spec`] pass leaves them, and the returned utilities are
    /// discarded.
    pub fn iterate<G: Game>(
        &self,
        g: &G,
        arena: &mut NodeArena<G::Action, G::Chance, CfrParameter>,
        root: NodePtr,
        state: &G::State,
        iteration: usize,
    )
        requires
            old(arena).wf(),
            root.0 < old(arena).spec_nodes().len(),
            g.spec_state_wf(*state),
        ensures
            final(arena).wf(),
            final(arena).spec_nodes() == old(arena).spec_nodes(),
            final(arena).spec_offsets() == old(arena).spec_offsets(),
            final(arena).spec_layout() == old(arena).spec_layout(),
            final(arena).spec_capacity() == old(arena).spec_capacity(),
            final(arena).spec_account() == old(arena).spec_account(),
            strategies_monotone(old(arena).spec_params(), final(arena).spec_params()),
            final(arena).spec_params() == cfr_spec(
                *g,
                old(arena).spec_nodes(),
                old(arena).spec_params(),
                root.0 as int,
                *state,
                spec_param_index_for::<G>(*g, *state),
                Seq::new(spec_players_of::<G>(*g), |q: int| WEIGHT_SCALE),
            ).1,
    {
        let players = g.players();
        proof {
            g.lemma_game_wf(*state, g.spec_events(*state)[0]);
        }
        let mut reach: Vec<u64> = Vec::new();
        let mut q: usize = 0;
        while q < players
            invariant
                q <= players,
                reach@.len() == q,
                forall|x: int| 0 <= x < q ==> #[trigger] reach@[x] == WEIGHT_SCALE,
            decreases players - q,
        {
            reach.push(WEIGHT_SCALE);
            q = q + 1;
        }
        proof {
            assert(reach@ =~= Seq::new(spec_players_of::<G>(*g), |q: int| WEIGHT_SCALE));
        }
        let index = Self::parameter_index_for(g, state);
        let _ = self.cfr(g, arena, root, state, index, &reach);
    }
}

/// A vector of `n` zeroed accumulators.
fn zeros_i128(n: usize) -> (v: Vec<i128>)
    ensures
        v@.len() == n,
        forall|i: int| 0 <= i < n ==> #[trigger] v@[i] == 0,
{
    let mut v: Vec<i128> = Vec::new();
    let mut i: usize = 0;
    while i < n
        invariant
            i <= n,
            v@.len() == i,
            forall|j: int| 0 <= j < i ==> #[trigger] v@[j] == 0,
        decreases n - i,
    {
        v.push(0);
        i = i + 1;
    }
    v
}

} // verus!
