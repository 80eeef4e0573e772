//! The contract between a game and the tree builder / solver.
//!
//! A game classifies each state into exactly one of three stages (action,
//! chance, terminal), enumerates the events leaving a state in a fixed
//! order, advances states by events, and scores terminal states.  All
//! fractional quantities — chance weights, reach probabilities, strategies —
//! are fixed-point values scaled by [`WEIGHT_SCALE`].

use vstd::prelude::*;

verus! {

/// Fixed-point scale: the integer representing probability one.
pub const WEIGHT_SCALE: u64 = 65536;

/// Largest magnitude a game may report as a terminal utility.
pub const UTILITY_LIMIT: i64 = 2147483648;

/// One outgoing edge of a state: a player's action or a chance outcome.
#[derive(Clone, Copy, Debug)]
pub enum Event<A, C> {
    Action(A),
    Chance(C),
}

/// Classifies a state.  Exactly one of the three predicates holds.
pub trait Stage: Sized {
    spec fn spec_is_action(&self) -> bool;

    spec fn spec_is_chance(&self) -> bool;

    spec fn spec_is_terminal(&self) -> bool;

    spec fn spec_player(&self) -> Option<usize>;

    /// The three predicates are exhaustive and mutually exclusive, and an
    /// action stage names the player to act.
    proof fn lemma_partition(&self)
        ensures
            self.spec_is_action() || self.spec_is_chance() || self.spec_is_terminal(),
            self.spec_is_action() ==> !self.spec_is_chance() && !self.spec_is_terminal(),
            self.spec_is_chance() ==> !self.spec_is_terminal(),
            self.spec_is_action() ==> self.spec_player() is Some,
    ;

    fn is_action(&self) -> (b: bool)
        ensures
            b == self.spec_is_action(),
    ;

    fn is_chance(&self) -> (b: bool)
        ensures
            b == self.spec_is_chance(),
    ;

    fn is_terminal(&self) -> (b: bool)
        ensures
            b == self.spec_is_terminal(),
    ;

    fn player_to_act(&self) -> (p: Option<usize>)
        ensures
            p == self.spec_player(),
    ;
}

/// Maps states to per-action parameter vectors: how many slots each action
/// node under a state carries, and which slot the current information
/// partition selects.
pub trait ParameterMapping {
    type State;

    spec fn spec_parameter_count(s: Self::State) -> int;

    spec fn spec_parameter_index(s: Self::State) -> int;

    /// When the slot index is meaningful: at a well-formed action state.
    spec fn spec_index_defined(s: Self::State) -> bool;

    /// Every state's parameter vector has at least one slot.
    proof fn lemma_parameter_count_pos(s: Self::State)
        ensures
            Self::spec_parameter_count(s) >= 1,
    ;

    fn get_parameter_count(s: &Self::State) -> (k: usize)
        ensures
            k == Self::spec_parameter_count(*s),
            k >= 1,
    ;

    fn get_parameter_index(s: &Self::State) -> (i: usize)
        requires
            Self::spec_index_defined(*s),
        ensures
            i == Self::spec_parameter_index(*s),
            i < Self::spec_parameter_count(*s),
    ;
}

/// A per-action solver parameter, initialized in bulk when a sibling group
/// is allocated.
pub trait Parameter: Sized {
    /// The value every slot holds right after allocation.
    spec fn spec_init() -> Self;

    fn initialize(count: usize) -> (v: Vec<Self>)
        ensures
            v@.len() == count,
            forall|i: int| 0 <= i < count ==> v@[i] == Self::spec_init(),
    ;
}

/// An abstract extensive-form game.
pub trait Game: Sized {
    type Action: Copy;

    type Chance: Copy;

    type State;

    type Stage: Stage;

    type ParameterMapping: ParameterMapping<State = Self::State>;

    /// Number of players being scored.
    spec fn spec_players(&self) -> int;

    /// States the solver may be handed: everything the game's own
    /// constructors produce, preserved by `advance_state`.
    spec fn spec_state_wf(&self, s: Self::State) -> bool;

    spec fn spec_stage(&self, s: Self::State) -> Self::Stage;

    /// The events leaving `s`, in their canonical order.
    spec fn spec_events(&self, s: Self::State) -> Seq<Event<Self::Action, Self::Chance>>;

    spec fn spec_advance(
        &self,
        s: Self::State,
        e: Event<Self::Action, Self::Chance>,
    ) -> Self::State;

    /// Scaled probability of chance outcome `c` at `s`.
    spec fn spec_chance_weight(&self, s: Self::State, c: Self::Chance) -> int;

    /// Payoff of `player` at terminal state `s`.
    spec fn spec_utility(&self, s: Self::State, player: int) -> int;

    /// The structural laws every game obeys: a non-terminal state has at
    /// least one event and a terminal one none; events are homogeneous,
    /// matching the stage; advancing a live state by a stage-consistent
    /// event preserves well-formedness; players and utilities are bounded.
    proof fn lemma_game_wf(&self, s: Self::State, e: Event<Self::Action, Self::Chance>)
        requires
            self.spec_state_wf(s),
        ensures
            1 <= self.spec_players(),
            !self.spec_stage(s).spec_is_terminal() ==> self.spec_events(s).len() >= 1,
            self.spec_stage(s).spec_is_terminal() ==> self.spec_events(s).len() == 0,
            self.spec_stage(s).spec_is_action() ==> forall|i: int|
                0 <= i < self.spec_events(s).len() ==> self.spec_events(s)[i] is Action,
            self.spec_stage(s).spec_is_chance() ==> forall|i: int|
                0 <= i < self.spec_events(s).len() ==> self.spec_events(s)[i] is Chance,
            self.spec_stage(s).spec_player() matches Some(p) ==> p < self.spec_players(),
            self.spec_stage(s).spec_is_action()
                ==> <Self::ParameterMapping as ParameterMapping>::spec_index_defined(s),
            (!self.spec_stage(s).spec_is_terminal() && (self.spec_stage(s).spec_is_action()
                ==> e is Action) && (self.spec_stage(s).spec_is_chance() ==> e is Chance))
                ==> self.spec_state_wf(self.spec_advance(s, e)),
            self.spec_stage(s).spec_is_terminal() ==> forall|p: int|
                -UTILITY_LIMIT <= #[trigger] self.spec_utility(s, p) <= UTILITY_LIMIT,
    ;

    fn players(&self) -> (n: usize)
        ensures
            n == self.spec_players(),
    ;

    /// An exact copy of a state, for descending into one child while the
    /// parent state stays usable.
    fn clone_state(&self, s: &Self::State) -> (t: Self::State)
        ensures
            t == *s,
    ;

    fn get_stage(&self, s: &Self::State) -> (stage: Self::Stage)
        requires
            self.spec_state_wf(*s),
        ensures
            stage == self.spec_stage(*s),
    ;

    /// Clears `events` and fills it with the events leaving `s`, in order.
    fn populate_events(
        &self,
        s: &Self::State,
        events: &mut Vec<Event<Self::Action, Self::Chance>>,
    )
        requires
            self.spec_state_wf(*s),
        ensures
            final(events)@ == self.spec_events(*s),
    ;

    /// Advances `s` in place.  The event must be consistent with the stage:
    /// an action at an action stage, a chance outcome at a chance stage.
    fn advance_state(&self, s: &mut Self::State, e: Event<Self::Action, Self::Chance>)
        requires
            self.spec_state_wf(*old(s)),
            !self.spec_stage(*old(s)).spec_is_terminal(),
            self.spec_stage(*old(s)).spec_is_action() ==> e is Action,
            self.spec_stage(*old(s)).spec_is_chance() ==> e is Chance,
        ensures
            *final(s) == self.spec_advance(*old(s), e),
            self.spec_state_wf(*final(s)),
    ;

    /// Scaled probability of drawing `c` at the chance state `s`.
    fn get_chance_weight(&self, s: &Self::State, c: Self::Chance) -> (w: u64)
        requires
            self.spec_state_wf(*s),
            self.spec_stage(*s).spec_is_chance(),
        ensures
            w == self.spec_chance_weight(*s, c),
            w <= WEIGHT_SCALE,
    ;

    /// A non-binding estimate of the number of children of `s`, for buffer
    /// presizing.
    fn get_branching_hint(&self, s: &Self::State) -> usize;

    /// Writes each player's payoff at the terminal state `s` into
    /// `utilities`, one entry per player.
    fn get_terminal_utilities(&self, s: &Self::State, utilities: &mut Vec<i64>)
        requires
            self.spec_state_wf(*s),
            self.spec_stage(*s).spec_is_terminal(),
            old(utilities)@.len() == self.spec_players(),
        ensures
            final(utilities)@.len() == self.spec_players(),
            forall|i: int| 0 <= i < final(utilities)@.len() ==> final(utilities)@[i] == self.spec_utility(
                *s,
                i,
            ),
    ;
}

} // verus!
