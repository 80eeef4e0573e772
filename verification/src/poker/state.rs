//! A generic betting-round state shared by poker variants.

use vstd::prelude::*;

verus! {

/// Chip amounts.
pub type Value = u32;

/// A seat at the table.
#[derive(Clone, Copy, Debug, PartialEq, Eq, Structural)]
pub struct Player(pub u8);

/// One betting round over `T`-specific game data.
#[derive(Clone, Debug)]
pub struct State<T> {
    pub player_stacks: Vec<Value>,
    pub player_committed: Vec<Value>,
    pub player_folded: Vec<bool>,
    pub active_player: Player,
    pub last_aggressor: Option<Player>,
    pub pot: Value,
    pub last_raise: Value,
    pub current_bet: Value,
    pub game_data: T,
}

/// Number of unfolded seats below `k`.
pub open spec fn spec_active_count(folded: Seq<bool>, k: int) -> int
    decreases k,
{
    if k <= 0 {
        0
    } else {
        spec_active_count(folded, k - 1) + if folded[k - 1] {
            0int
        } else {
            1int
        }
    }
}

/// The first unfolded seat at or after cyclic position `pos`, searching at
/// most up to position `end`.
pub open spec fn spec_next_active(folded: Seq<bool>, pos: int, end: int) -> Option<int>
    decreases end - pos,
{
    if pos >= end || folded.len() == 0 {
        None
    } else if !folded[pos % folded.len() as int] {
        Some(pos % folded.len() as int)
    } else {
        spec_next_active(folded, pos + 1, end)
    }
}

impl<T> State<T> {
    /// The number of players still in the hand.
    pub fn active_player_count(&self) -> (n: usize)
        ensures
            n == spec_active_count(self.player_folded@, self.player_folded@.len() as int),
    {
        let mut count: usize = 0;
        let mut i: usize = 0;
        let len = self.player_folded.len();
        while i < len
            invariant
                i <= len,
                len == self.player_folded@.len(),
                count == spec_active_count(self.player_folded@, i as int),
                count <= i,
            decreases len - i,
        {
            if !self.player_folded[i] {
                count = count + 1;
            }
            i = i + 1;
        }
        count
    }

    /// The next seat after the active player that has not folded, looking
    /// around the table at most twice.  `None` if everyone else folded and
    /// the active player too.
    pub fn next_active_player(&self) -> (p: Option<Player>)
        requires
            self.player_folded@.len() >= 1,
            (self.active_player.0 as int) < self.player_folded@.len(),
            self.player_folded@.len() <= 256,
        ensures
            (match p {
                Some(player) => spec_next_active(
                    self.player_folded@,
                    self.active_player.0 as int + 1,
                    2 * self.player_folded@.len() as int,
                ) == Some(player.0 as int),
                None => spec_next_active(
                    self.player_folded@,
                    self.active_player.0 as int + 1,
                    2 * self.player_folded@.len() as int,
                ) is None,
            }),
    {
        let len = self.player_folded.len();
        let end = 2 * len;
        let mut pos: usize = self.active_player.0 as usize + 1;
        while pos < end
            invariant
                1 <= len == self.player_folded@.len() <= 256,
                end == 2 * len,
                pos <= end,
                spec_next_active(
                    self.player_folded@,
                    self.active_player.0 as int + 1,
                    end as int,
                ) == spec_next_active(self.player_folded@, pos as int, end as int),
            decreases end - pos,
        {
            let seat = pos % len;
            if !self.player_folded[seat] {
                return Some(Player(seat as u8));
            }
            pos = pos + 1;
        }
        None
    }
}

} // verus!
