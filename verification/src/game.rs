//! The contract a sequential-decision process must expose to the search.

use crate::rng;
use vstd::prelude::*;

verus! {

/// Greatest magnitude a reward may have. Rewards are integers in the unit the
/// process chooses; a plain win/loss process reports 1 and 0. The bound keeps
/// every statistic of the tree within machine range.
pub const MAX_ABS_REWARD: i64 = 32768;

/// A sequential-decision process. Actions and actors are identified by `u64`
/// tokens of the implementer's choosing; the search never interprets them.
///
/// The `spec` members are the abstract model of the process; each executable
/// method is tied to the model by its contract. The search proves its own
/// guarantees from these contracts alone.
///
/// Two situations are misuse and remain outside every contract here: a
/// non-terminal state with no legal action makes the search return
/// `MctsError::NoLegalActions`, and `reward_for` may only be queried at a
/// terminal or heuristically truncated state.
pub trait Game: Sized + Clone {
    /// The legal actions at this state, in the order the process reports
    /// them. A verified implementation overrides this model; the default
    /// bodies here only serve implementations written outside the verifier,
    /// which no proof reads.
    open spec fn choices(&self) -> Seq<u64> {
        Seq::empty()
    }

    /// Whether this state ends the process.
    open spec fn terminal(&self) -> bool {
        false
    }

    /// The actor who is to act at this state.
    open spec fn active_player(&self) -> u64 {
        0
    }

    /// The reward from `player_id`'s perspective, meaningful at terminal or
    /// heuristically truncated states.
    open spec fn reward(&self, player_id: u64) -> int {
        0
    }

    /// The state after applying `choice`. A determinized state transitions
    /// deterministically; chance belongs in `get_determinization`.
    open spec fn next(&self, choice: u64) -> Self {
        *self
    }

    /// Whether `choice` is currently legal; processes with hidden information
    /// may report fewer actions than the tree remembers.
    open spec fn choice_available(&self, choice: u64) -> bool {
        true
    }

    /// Whether a playout may stop here before true terminality.
    open spec fn early_terminate(&self) -> bool {
        false
    }

    /// Each legal action appears once: an action token identifies a
    /// transition, so a legal-action list never repeats one.
    fn get_all_choices(&self) -> (r: Vec<u64>)
        ensures
            r@ == self.choices(),
            r@.no_duplicates(),
    ;

    fn apply_choice(&mut self, choice: u64)
        ensures
            *final(self) == old(self).next(choice),
    ;

    fn get_active_player_id(&self) -> (r: u64)
        ensures
            r == self.active_player(),
    ;

    fn is_terminal(&self) -> (r: bool)
        ensures
            r == self.terminal(),
    ;

    fn reward_for(&self, player_id: u64) -> (r: i64)
        requires
            self.terminal() || self.early_terminate(),
        ensures
            r as int == self.reward(player_id),
            -MAX_ABS_REWARD <= r <= MAX_ABS_REWARD,
    ;

    /// Change for non-deterministic games; `true` for every choice in the
    /// deterministic case.
    fn choice_is_available(&self, choice: u64) -> (r: bool)
        ensures
            r == self.choice_available(choice),
    ;

    /// Change for non-deterministic games: sample one fully observable
    /// instance of this state from `from_perspective`'s point of view.
    fn get_determinization(&self, from_perspective: u64) -> Self {
        let _ = from_perspective;
        self.clone()
    }

    /// The action a playout takes from this state; uniform-random by default.
    fn get_rollout_choice(&self) -> (r: u64)
        requires
            self.choices().len() > 0,
        ensures
            self.choices().contains(r),
    {
        let cs = self.get_all_choices();
        rng::pick_from(&cs)
    }

    /// Signals that a playout may be scored here before true terminality;
    /// `false` unless the process has such a heuristic.
    fn heuristic_early_terminate(&self) -> (r: bool)
        ensures
            r == self.early_terminate(),
    ;

    /// Whether expansion should randomize action order, avoiding positional
    /// bias when only one new child is materialized per visit.
    fn shuffle_on_expand(&self) -> bool {
        true
    }
}

} // verus!
