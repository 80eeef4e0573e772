//! Kuhn poker for any player count, as a `Game`.
//!
//! Each of `N` players antes one chip and privately holds one card drawn
//! from `N + 1` ranks.  One betting round: a player may bet (or call a
//! standing bet) or check (fold against a standing bet).  At showdown the
//! best live card wins the pot.  The state is bit-packed: four bits of
//! `cards` per player and one `called` bit per player, so states are plain
//! copyable words.

use vstd::prelude::*;

use crate::game::{Event, Game, ParameterMapping, Stage};

verus! {

/// Which player acts, or showdown.
#[derive(Clone, Copy, Debug, PartialEq, Eq, Structural)]
pub enum KuhnStage {
    PlayerAction(u8),
    Showdown,
}

impl Stage for KuhnStage {
    open spec fn spec_is_action(&self) -> bool {
        *self is PlayerAction
    }

    open spec fn spec_is_chance(&self) -> bool {
        false
    }

    open spec fn spec_is_terminal(&self) -> bool {
        *self is Showdown
    }

    open spec fn spec_player(&self) -> Option<usize> {
        match *self {
            KuhnStage::PlayerAction(p) => Some(p as usize),
            KuhnStage::Showdown => None,
        }
    }

    proof fn lemma_partition(&self) {
    }

    fn is_action(&self) -> (b: bool) {
        match self {
            KuhnStage::PlayerAction(_) => true,
            KuhnStage::Showdown => false,
        }
    }

    fn is_chance(&self) -> (b: bool) {
        false
    }

    fn is_terminal(&self) -> (b: bool) {
        match self {
            KuhnStage::PlayerAction(_) => false,
            KuhnStage::Showdown => true,
        }
    }

    fn player_to_act(&self) -> (p: Option<usize>) {
        match self {
            KuhnStage::PlayerAction(p) => Some(*p as usize),
            KuhnStage::Showdown => None,
        }
    }
}

/// Kuhn poker has no chance nodes; this uninhabited-in-practice outcome
/// type only satisfies the game contract.
#[derive(Clone, Copy, Debug, PartialEq, Eq, Structural)]
pub struct NoChance;

/// Bet also calls a standing bet; check also folds against one.
#[derive(Clone, Copy, Debug, PartialEq, Eq, Structural)]
pub enum KuhnAction {
    Bet,
    Check,
}

/// Most players a state can pack: twelve four-bit card fields in `cards`.
pub const MAX_KUHN_PLAYERS: u8 = 12;

/// One Kuhn poker state.  `cards` packs one rank per player, four bits
/// each; `called` has one bit per player who bet or called.
#[derive(Clone, Copy, Debug, PartialEq, Eq, Structural)]
pub struct KuhnState {
    pub players: u8,
    pub cards: u64,
    pub bet: bool,
    pub called: u32,
    pub stage: KuhnStage,
}

/// The card of player `i` in a packed hand.
pub open spec fn card_at(cards: u64, i: int) -> u64 {
    (cards >> ((4 * i) as u64)) & 0xF
}

/// Whether player `i` has bet or called.
pub open spec fn called_at(called: u32, i: int) -> bool {
    (called >> (i as u32)) & 1 == 1
}

/// A reachable Kuhn state: the player count fits the packing, the acting
/// player and every card are in range, and a standing bet has a bettor.
pub open spec fn kuhn_wf(s: KuhnState) -> bool {
    &&& 1 <= s.players <= MAX_KUHN_PLAYERS
    &&& (match s.stage {
        KuhnStage::PlayerAction(p) => p < s.players,
        KuhnStage::Showdown => true,
    })
    &&& forall|i: int| 0 <= i < s.players ==> #[trigger] card_at(s.cards, i) <= s.players
    &&& (s.bet ==> exists|i: int| 0 <= i < s.players && #[trigger] called_at(s.called, i))
}

/// The state after the acting player bets/calls or checks/folds.
pub open spec fn spec_advance_kuhn(s: KuhnState, a: KuhnAction) -> KuhnState {
    match s.stage {
        KuhnStage::PlayerAction(p) => {
            let next = if p + 1 == s.players {
                0u8
            } else {
                (p + 1) as u8
            };
            if s.bet {
                let called2 = if a is Bet {
                    s.called | (1u32 << (p as u32))
                } else {
                    s.called
                };
                if called_at(called2, next as int) {
                    KuhnState { called: called2, stage: KuhnStage::Showdown, ..s }
                } else {
                    KuhnState { called: called2, stage: KuhnStage::PlayerAction(next), ..s }
                }
            } else if a is Bet {
                KuhnState {
                    bet: true,
                    called: s.called | (1u32 << (p as u32)),
                    stage: KuhnStage::PlayerAction(next),
                    ..s
                }
            } else if next < p {
                KuhnState { stage: KuhnStage::Showdown, ..s }
            } else {
                KuhnState { stage: KuhnStage::PlayerAction(next), ..s }
            }
        },
        KuhnStage::Showdown => s,
    }
}

/// Number of set `called` bits below `k`.
pub open spec fn count_called(called: u32, k: int) -> int
    decreases k,
{
    if k <= 0 {
        0
    } else {
        count_called(called, k - 1) + if called_at(called, k - 1) {
            1int
        } else {
            0int
        }
    }
}

/// The pot: one ante per player plus one chip per bet or call.
pub open spec fn kuhn_pot(s: KuhnState) -> int {
    s.players + count_called(s.called, s.players as int)
}

/// Player `i` contests the showdown: everyone without a bet, else only
/// those who bet or called.
pub open spec fn kuhn_eligible(s: KuhnState, i: int) -> bool {
    !s.bet || called_at(s.called, i)
}

/// The winner among the first `k` players: the last eligible player whose
/// card is no worse than any earlier eligible card.
pub open spec fn kuhn_winner_upto(s: KuhnState, k: int) -> Option<int>
    decreases k,
{
    if k <= 0 {
        None
    } else {
        let prev = kuhn_winner_upto(s, k - 1);
        if kuhn_eligible(s, k - 1) && (match prev {
            None => true,
            Some(w) => card_at(s.cards, k - 1) >= card_at(s.cards, w),
        }) {
            Some(k - 1)
        } else {
            prev
        }
    }
}

pub open spec fn kuhn_winner(s: KuhnState) -> int {
    match kuhn_winner_upto(s, s.players as int) {
        Some(w) => w,
        None => 0,
    }
}

/// Player `i`'s payoff at showdown: the winner takes the pot less their
/// own contribution; everyone else loses theirs (two chips after a bet or
/// call, one otherwise).
pub open spec fn kuhn_utility(s: KuhnState, i: int) -> int {
    if 0 <= i < s.players {
        let contribution = if called_at(s.called, i) {
            2int
        } else {
            1int
        };
        if i == kuhn_winner(s) {
            kuhn_pot(s) - contribution
        } else {
            -contribution
        }
    } else {
        0
    }
}

/// Setting a bit makes it read back set.
proof fn lemma_set_bit(m: u32, p: u32)
    by (bit_vector)
    requires
        p < 32,
    ensures
        ((m | (1u32 << p)) >> p) & 1 == 1,
{
}

/// There are at most `k` set bits below `k`.
proof fn lemma_count_called_bound(called: u32, k: int)
    requires
        k >= 0,
    ensures
        0 <= count_called(called, k) <= k,
    decreases k,
{
    if k > 0 {
        lemma_count_called_bound(called, k - 1);
    }
}

/// Any winner among the first `k` players is one of them, and eligible.
proof fn lemma_winner_upto_props(s: KuhnState, k: int)
    ensures
        kuhn_winner_upto(s, k) matches Some(x) ==> 0 <= x < k && kuhn_eligible(s, x),
    decreases k,
{
    if k > 0 {
        lemma_winner_upto_props(s, k - 1);
    }
}

/// An eligible player below `k` guarantees a winner among the first `k`.
proof fn lemma_winner_exists(s: KuhnState, w: int, k: int)
    requires
        0 <= w < k,
        kuhn_eligible(s, w),
    ensures
        kuhn_winner_upto(s, k) is Some,
    decreases k,
{
    if w < k - 1 {
        lemma_winner_exists(s, w, k - 1);
    }
}

/// The winner of a well-formed state is a player, and eligible.
proof fn lemma_winner_in_range(s: KuhnState)
    requires
        kuhn_wf(s),
    ensures
        kuhn_winner_upto(s, s.players as int) is Some,
        0 <= kuhn_winner(s) < s.players,
        kuhn_eligible(s, kuhn_winner(s)),
{
    lemma_winner_upto_props(s, s.players as int);
    if s.bet {
        let w = choose|i: int| 0 <= i < s.players && #[trigger] called_at(s.called, i);
        lemma_winner_exists(s, w, s.players as int);
    } else {
        lemma_winner_exists(s, 0, s.players as int);
    }
}

/// Advancing a live well-formed state yields a well-formed state with the
/// same players and cards.
proof fn lemma_advance_wf(s: KuhnState, a: KuhnAction)
    requires
        kuhn_wf(s),
        s.stage is PlayerAction,
    ensures
        kuhn_wf(spec_advance_kuhn(s, a)),
        spec_advance_kuhn(s, a).players == s.players,
        spec_advance_kuhn(s, a).cards == s.cards,
{
    let p = s.stage->PlayerAction_0;
    let t = spec_advance_kuhn(s, a);
    if s.bet {
        if a is Bet {
            lemma_set_bit(s.called, p as u32);
            assert(called_at(s.called | (1u32 << (p as u32)), p as int));
        }
        if t.bet {
            if a is Bet {
                assert(called_at(t.called, p as int)) by {
                    lemma_set_bit(s.called, p as u32);
                }
            } else {
                assert(t.called == s.called);
            }
        }
    } else if a is Bet {
        lemma_set_bit(s.called, p as u32);
        assert(called_at(t.called, p as int));
    }
}


/// Sum of the first `k` players' payoffs.
pub open spec fn kuhn_utility_sum(s: KuhnState, k: int) -> int
    decreases k,
{
    if k <= 0 {
        0
    } else {
        kuhn_utility_sum(s, k - 1) + kuhn_utility(s, k - 1)
    }
}

/// The payoffs of the first `k` players cancel, except that the winner's
/// pot is only counted once the sum reaches them.
proof fn lemma_utility_sum_partial(s: KuhnState, k: int)
    requires
        kuhn_wf(s),
        0 <= k <= s.players,
        0 <= kuhn_winner(s) < s.players,
    ensures
        kuhn_utility_sum(s, k) == (if kuhn_winner(s) < k {
            kuhn_pot(s)
        } else {
            0
        }) - (k + count_called(s.called, k)),
    decreases k,
{
    if k > 0 {
        lemma_utility_sum_partial(s, k - 1);
    }
}

/// Kuhn poker is zero-sum: at any well-formed state the players' payoffs
/// sum to zero.
pub proof fn lemma_kuhn_zero_sum(s: KuhnState)
    requires
        kuhn_wf(s),
    ensures
        kuhn_utility_sum(s, s.players as int) == 0,
{
    lemma_winner_in_range(s);
    lemma_utility_sum_partial(s, s.players as int);
}

/// The Kuhn game for a fixed number of players.
#[derive(Clone, Copy, Debug, PartialEq, Eq, Structural)]
pub struct KuhnGame {
    pub players: u8,
}

/// Maps a Kuhn action state to its parameter vector: one slot per possible
/// private card (`players + 1` ranks), selected by the acting player's
/// card.
pub struct KuhnParameterMapping;

impl ParameterMapping for KuhnParameterMapping {
    type State = KuhnState;

    open spec fn spec_parameter_count(s: KuhnState) -> int {
        s.players + 1
    }

    open spec fn spec_parameter_index(s: KuhnState) -> int {
        match s.stage {
            KuhnStage::PlayerAction(p) => card_at(s.cards, p as int) as int,
            KuhnStage::Showdown => 0,
        }
    }

    open spec fn spec_index_defined(s: KuhnState) -> bool {
        kuhn_wf(s) && s.stage is PlayerAction
    }

    proof fn lemma_parameter_count_pos(s: KuhnState) {
    }

    fn get_parameter_count(s: &KuhnState) -> (k: usize) {
        s.players as usize + 1
    }

    fn get_parameter_index(s: &KuhnState) -> (i: usize) {
        match s.stage {
            KuhnStage::PlayerAction(p) => {
                let shift = 4 * (p as u64);
                ((s.cards >> shift) & 0xF) as usize
            },
            KuhnStage::Showdown => {
                proof {
                    assert(false);
                }
                0
            },
        }
    }
}

impl KuhnState {
    /// The initial state of a deal: player 0 to act, no bet, each player
    /// holding the given card.
    pub fn from_cards(cards: &Vec<u8>) -> (s: KuhnState)
        requires
            1 <= cards@.len() <= MAX_KUHN_PLAYERS,
            forall|i: int| 0 <= i < cards@.len() ==> #[trigger] cards@[i] <= cards@.len(),
        ensures
            kuhn_wf(s),
            s.players == cards@.len(),
            s.bet == false,
            s.called == 0,
            s.stage == KuhnStage::PlayerAction(0),
            forall|i: int| 0 <= i < cards@.len() ==> #[trigger] card_at(s.cards, i) == cards@[i],
    {
        let n = cards.len();
        let mut packed: u64 = 0;
        let mut i: usize = 0;
        proof {
            assert forall|m: int| 0 <= m < 12 implies #[trigger] card_at(0u64, m) == 0 by {
                let mu = m as u64;
                assert((4 * m) as u64 == 4 * mu);
                assert((0u64 >> (4 * mu)) & 0xF == 0) by (bit_vector);
            }
        }
        while i < n
            invariant
                n == cards@.len(),
                1 <= n <= 12,
                i <= n,
                forall|m: int| 0 <= m < n ==> #[trigger] cards@[m] <= n,
                forall|m: int| 0 <= m < i ==> #[trigger] card_at(packed, m) == cards@[m],
                forall|m: int| i <= m < 12 ==> #[trigger] card_at(packed, m) == 0,
            decreases n - i,
        {
            let c = cards[i];
            proof {
                let iu = i as u64;
                let cu = c as u64;
                let acc = packed;
                assert(card_at(acc, i as int) == 0);
                assert((4 * (i as int)) as u64 == 4 * iu);
                assert((acc >> (4 * iu)) & 0xF == 0);
                assert forall|m: int| 0 <= m < 12 implies #[trigger] card_at(
                    acc | (cu << (4 * iu)),
                    m,
                ) == (if m == i {
                    cu
                } else {
                    card_at(acc, m)
                }) by {
                    let mu = m as u64;
                    assert((4 * m) as u64 == 4 * mu);
                    assert(((acc | (cu << (4 * iu))) >> (4 * mu)) & 0xF == (if iu == mu {
                        cu
                    } else {
                        (acc >> (4 * mu)) & 0xF
                    })) by (bit_vector)
                        requires
                            iu < 12,
                            mu < 12,
                            cu <= 15,
                            (acc >> (4 * iu)) & 0xF == 0,
                    ;
                    assert((iu == mu) <==> (i == m));
                }
            }
            packed = packed | ((c as u64) << (4 * (i as u64)));
            i = i + 1;
        }
        KuhnState {
            players: n as u8,
            cards: packed,
            bet: false,
            called: 0,
            stage: KuhnStage::PlayerAction(0),
        }
    }
}

impl Game for KuhnGame {
    type Action = KuhnAction;

    type Chance = NoChance;

    type State = KuhnState;

    type Stage = KuhnStage;

    type ParameterMapping = KuhnParameterMapping;

    open spec fn spec_players(&self) -> int {
        self.players as int
    }

    open spec fn spec_state_wf(&self, s: KuhnState) -> bool {
        kuhn_wf(s) && s.players == self.players
    }

    open spec fn spec_stage(&self, s: KuhnState) -> KuhnStage {
        s.stage
    }

    open spec fn spec_events(&self, s: KuhnState) -> Seq<Event<KuhnAction, NoChance>> {
        match s.stage {
            KuhnStage::PlayerAction(_) => seq![
                Event::Action(KuhnAction::Bet),
                Event::Action(KuhnAction::Check),
            ],
            KuhnStage::Showdown => Seq::empty(),
        }
    }

    open spec fn spec_advance(&self, s: KuhnState, e: Event<KuhnAction, NoChance>) -> KuhnState {
        match e {
            Event::Action(a) => spec_advance_kuhn(s, a),
            Event::Chance(_) => s,
        }
    }

    open spec fn spec_chance_weight(&self, s: KuhnState, c: NoChance) -> int {
        0
    }

    open spec fn spec_utility(&self, s: KuhnState, player: int) -> int {
        kuhn_utility(s, player)
    }

    proof fn lemma_game_wf(&self, s: KuhnState, e: Event<KuhnAction, NoChance>) {
        let stage = s.stage;
        if stage is PlayerAction && e is Action {
            lemma_advance_wf(s, e->Action_0);
        }
        if stage is Showdown {
            assert forall|p: int|
                -crate::game::UTILITY_LIMIT <= #[trigger] kuhn_utility(s, p)
                    <= crate::game::UTILITY_LIMIT by {
                lemma_count_called_bound(s.called, s.players as int);
            }
        }
    }

    fn players(&self) -> (n: usize) {
        self.players as usize
    }

    fn clone_state(&self, s: &KuhnState) -> (t: KuhnState) {
        *s
    }

    fn get_stage(&self, s: &KuhnState) -> (stage: KuhnStage) {
        s.stage
    }

    fn populate_events(&self, s: &KuhnState, events: &mut Vec<Event<KuhnAction, NoChance>>) {
        events.clear();
        match s.stage {
            KuhnStage::PlayerAction(_) => {
                events.push(Event::Action(KuhnAction::Bet));
                events.push(Event::Action(KuhnAction::Check));
                proof {
                    assert(events@ =~= self.spec_events(*s));
                }
            },
            KuhnStage::Showdown => {
                proof {
                    assert(events@ =~= self.spec_events(*s));
                }
            },
        }
    }

    fn advance_state(&self, s: &mut KuhnState, e: Event<KuhnAction, NoChance>) {
        let a = match e {
            Event::Action(a) => a,
            Event::Chance(_) => {
                proof {
                    assert(false);
                }
                KuhnAction::Check
            },
        };
        match s.stage {
            KuhnStage::PlayerAction(p) => {
                let next = if p + 1 == s.players {
                    0u8
                } else {
                    p + 1
                };
                if s.bet {
                    if matches!(a, KuhnAction::Bet) {
                        s.called = s.called | (1u32 << (p as u32));
                    }
                    if (s.called >> (next as u32)) & 1 == 1 {
                        s.stage = KuhnStage::Showdown;
                    } else {
                        s.stage = KuhnStage::PlayerAction(next);
                    }
                } else if matches!(a, KuhnAction::Bet) {
                    s.bet = true;
                    s.called = s.called | (1u32 << (p as u32));
                    s.stage = KuhnStage::PlayerAction(next);
                } else if next < p {
                    s.stage = KuhnStage::Showdown;
                } else {
                    s.stage = KuhnStage::PlayerAction(next);
                }
            },
            KuhnStage::Showdown => {
                proof {
                    assert(false);
                }
            },
        }
        proof {
            lemma_advance_wf(*old(s), a);
        }
    }

    fn get_chance_weight(&self, s: &KuhnState, c: NoChance) -> (w: u64) {
        0
    }

    fn get_branching_hint(&self, s: &KuhnState) -> usize {
        match s.stage {
            KuhnStage::PlayerAction(_) => 2,
            KuhnStage::Showdown => 0,
        }
    }

    fn get_terminal_utilities(&self, s: &KuhnState, utilities: &mut Vec<i64>) {
        let players = s.players as usize;
        proof {
            lemma_winner_in_range(*s);
            lemma_count_called_bound(s.called, s.players as int);
        }

        let mut pot: i64 = players as i64;
        let mut i: usize = 0;
        while i < players
            invariant
                players == s.players,
                i <= players,
                players <= 12,
                pot == s.players + count_called(s.called, i as int),
            decreases players - i,
        {
            proof {
                lemma_count_called_bound(s.called, i as int);
                lemma_count_called_bound(s.called, i + 1);
            }
            if (s.called >> (i as u32)) & 1 == 1 {
                pot = pot + 1;
            }
            i = i + 1;
        }

        let mut winner: usize = 0;
        let mut found = false;
        let mut j: usize = 0;
        while j < players
            invariant
                players == s.players,
                j <= players,
                players <= 12,
                (match kuhn_winner_upto(*s, j as int) {
                    Some(w) => found && winner == w,
                    None => !found,
                }),
                winner < players,
            decreases players - j,
        {
            let eligible = if s.bet {
                (s.called >> (j as u32)) & 1 == 1
            } else {
                true
            };
            if eligible {
                let cj = (s.cards >> (4 * (j as u64))) & 0xF;
                if !found {
                    winner = j;
                    found = true;
                } else {
                    let cw = (s.cards >> (4 * (winner as u64))) & 0xF;
                    if cj >= cw {
                        winner = j;
                    }
                }
            }
            j = j + 1;
        }
        proof {
            assert(found);
            assert(winner == kuhn_winner(*s));
        }

        let mut out: usize = 0;
        while out < players
            invariant
                players == s.players,
                out <= players,
                players <= 12,
                winner == kuhn_winner(*s),
                pot == kuhn_pot(*s),
                players <= pot,
                utilities@.len() == old(utilities)@.len(),
                old(utilities)@.len() == players,
                1 <= players,
                pot <= 2 * players,
                forall|m: int| 0 <= m < out ==> #[trigger] utilities@[m] == kuhn_utility(*s, m),
                forall|m: int|
                    out <= m < players ==> #[trigger] utilities@[m] == old(utilities)@[m],
            decreases players - out,
        {
            let contribution: i64 = if (s.called >> (out as u32)) & 1 == 1 {
                2
            } else {
                1
            };
            let value = if out == winner {
                pot - contribution
            } else {
                -contribution
            };
            utilities[out] = value;
            out = out + 1;
        }
    }
}

} // verus!
