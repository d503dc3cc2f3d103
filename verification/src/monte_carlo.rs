//! The statistics tree and the search engine.

use crate::game::Game;
use crate::game::MAX_ABS_REWARD;
use crate::numeric::spec_isqrt;
use crate::numeric::spec_ln_fp;
use crate::rng;
use crate::stats::MctsStats;
use vstd::prelude::*;

verus! {

broadcast use vstd::seq_lib::group_to_multiset_ensures;

/// Greatest number of iterations one search may run, and so the greatest
/// visit count any node can reach.
pub const MAX_GAMES: u64 = 0x7FFF_FFFF;

/// Selection value of a never-visited child: a maximal sentinel, so unvisited
/// children always win selection over visited ones (first-play urgency).
pub const FIRST_PLAY_VALUE: i64 = i64::MAX;

/// The exploration constant 0.4 in Q16.16 fixed point.
pub const UCB_C_FP: u64 = 26214;

/// The conditions the engine reports instead of proceeding on a misused
/// decision process.
#[derive(Clone, Copy, Debug, PartialEq, Eq, Structural)]
pub enum MctsError {
    /// A non-terminal state offered no selectable action.
    NoLegalActions,
    /// A single descent or playout exceeded the engine's depth budget.
    DepthLimitExceeded,
}

/// One node of the statistics tree.
pub struct MonteCarloTreeNode {
    /// Number of completed simulations that passed through this node.
    pub games: u64,
    /// Running sum of terminal rewards, from `player_id`'s perspective.
    pub cumulative_reward: i64,
    /// The actor who was to act when this node was reached.
    pub player_id: u64,
    /// The action that produced this node; `None` exactly for the root.
    pub choice: Option<u64>,
    /// Children, one per materialized action; choices are unique.
    pub children: Vec<MonteCarloTreeNode>,
    /// Per action, how many expansions of this node observed it as legal
    /// after the first sighting (the first sighting records 0).
    pub choice_availability_count: Vec<(u64, u64)>,
}

impl MonteCarloTreeNode {
    /// Whether an availability entry for `c` exists.
    pub open spec fn has_avail(self, c: u64) -> bool {
        exists|j: int|
            0 <= j < self.choice_availability_count@.len()
                && self.choice_availability_count@[j].0 == c
    }

    /// The recorded availability count for `c`, 0 if none was recorded.
    pub open spec fn spec_avail_count(self, c: u64) -> u64 {
        if self.has_avail(c) {
            self.choice_availability_count@[choose|j: int|
                0 <= j < self.choice_availability_count@.len()
                    && self.choice_availability_count@[j].0 == c].1
        } else {
            0
        }
    }

    /// The structural invariant of the tree: bounded counters, reward sums
    /// bounded by the visit count, children keyed by distinct actions that
    /// all have an availability entry, child visit counts bounded by the
    /// parent's, and the same recursively below.
    pub open spec fn wf(self) -> bool
        decreases self,
    {
        &&& self.games <= MAX_GAMES
        &&& -((self.games as int) * (MAX_ABS_REWARD as int)) <= self.cumulative_reward as int
            <= (self.games as int) * (MAX_ABS_REWARD as int)
        &&& (forall|i: int|
            0 <= i < self.children@.len() ==> (#[trigger] self.children@[i]).choice is Some)
        &&& (forall|i: int, j: int|
            0 <= i < j < self.children@.len() ==> self.children@[i].choice
                != self.children@[j].choice)
        &&& (forall|i: int|
            0 <= i < self.children@.len() ==> (#[trigger] self.children@[i]).games <= self.games)
        &&& (forall|i: int, j: int|
            0 <= i < j < self.choice_availability_count@.len()
                ==> self.choice_availability_count@[i].0 != self.choice_availability_count@[j].0)
        &&& (forall|i: int|
            0 <= i < self.choice_availability_count@.len()
                ==> (#[trigger] self.choice_availability_count@[i]).1 <= self.games)
        &&& (forall|i: int|
            0 <= i < self.children@.len() ==> self.has_avail(
                (#[trigger] self.children@[i]).choice.unwrap(),
            ))
        &&& (forall|i: int|
            0 <= i < self.children@.len() ==> (#[trigger] self.children@[i]).wf())
    }

    /// A fresh, unvisited node.
    pub fn new(owner: u64, choice: Option<u64>) -> (r: MonteCarloTreeNode)
        ensures
            r.games == 0,
            r.cumulative_reward == 0,
            r.player_id == owner,
            r.choice == choice,
            r.children@.len() == 0,
            r.choice_availability_count@.len() == 0,
            r.wf(),
    {
        MonteCarloTreeNode {
            games: 0,
            cumulative_reward: 0,
            player_id: owner,
            choice,
            children: Vec::new(),
            choice_availability_count: Vec::new(),
        }
    }

    /// A node is the root exactly when no action produced it.
    pub fn is_root(&self) -> (r: bool)
        ensures
            r == (self.choice is None),
    {
        self.choice.is_none()
    }

    /// The robust-child decision: the action of a child with the greatest
    /// visit count, `None` exactly when the node has no children. Ties fall
    /// to the latest such child; callers must not rely on tie order.
    pub fn best_root_choice(&self) -> (r: Option<u64>)
        requires
            forall|i: int|
                0 <= i < self.children@.len() ==> (#[trigger] self.children@[i]).choice is Some,
        ensures
            r is Some ==> exists|j: int|
                0 <= j < self.children@.len() && self.children@[j].choice == Some(r.unwrap())
                    && (forall|k: int|
                    0 <= k < self.children@.len() ==> (#[trigger] self.children@[k]).games
                        <= self.children@[j].games),
            (r is None) <==> self.children@.len() == 0,
    {
        let mut best: Option<u64> = None;
        let mut best_games: u64 = 0;
        let mut i: usize = 0;
        while i < self.children.len()
            invariant
                i <= self.children@.len(),
                forall|x: int|
                    0 <= x < self.children@.len() ==> (#[trigger] self.children@[x]).choice
                        is Some,
                best is Some ==> exists|j: int|
                    0 <= j < self.children@.len() && self.children@[j].choice == Some(
                        best.unwrap(),
                    ) && self.children@[j].games == best_games,
                best is Some ==> forall|k: int|
                    0 <= k < i ==> (#[trigger] self.children@[k]).games <= best_games,
                best is None ==> i == 0,
            decreases self.children@.len() - i,
        {
            let child = &self.children[i];
            let keep = match best {
                Option::None => true,
                Option::Some(_) => child.games >= best_games,
            };
            if keep {
                best = match child.choice {
                    Option::Some(c) => Some(c),
                    Option::None => {
                        proof {
                            assert(false);
                        }
                        None
                    },
                };
                best_games = child.games;
            }
            i = i + 1;
        }
        best
    }

    /// The recorded availability count for `c`.
    fn avail_count(&self, c: u64) -> (r: u64)
        requires
            forall|i: int, j: int|
                0 <= i < j < self.choice_availability_count@.len()
                    ==> self.choice_availability_count@[i].0
                    != self.choice_availability_count@[j].0,
        ensures
            r == self.spec_avail_count(c),
    {
        let mut i: usize = 0;
        while i < self.choice_availability_count.len()
            invariant
                i <= self.choice_availability_count@.len(),
                forall|j: int| 0 <= j < i ==> self.choice_availability_count@[j].0 != c,
                forall|k: int, j: int|
                    0 <= k < j < self.choice_availability_count@.len()
                        ==> self.choice_availability_count@[k].0
                        != self.choice_availability_count@[j].0,
            decreases self.choice_availability_count@.len() - i,
        {
            if self.choice_availability_count[i].0 == c {
                return self.choice_availability_count[i].1;
            }
            i = i + 1;
        }
        assert(!self.has_avail(c));
        0
    }

    /// What selection needs of a node: distinct, well-formed children whose
    /// actions all have availability entries, bounded counters, and a
    /// distinct availability table. Holds right after an expansion pass, when
    /// the availability counts may briefly exceed the (not yet incremented)
    /// visit count.
    pub open spec fn select_ready(self) -> bool {
        &&& self.games <= MAX_GAMES
        &&& (forall|i: int|
            0 <= i < self.children@.len() ==> (#[trigger] self.children@[i]).choice is Some)
        &&& (forall|i: int, j: int|
            0 <= i < j < self.children@.len() ==> self.children@[i].choice
                != self.children@[j].choice)
        &&& (forall|i: int|
            0 <= i < self.children@.len() ==> (#[trigger] self.children@[i]).wf())
        &&& (forall|i: int, j: int|
            0 <= i < j < self.choice_availability_count@.len()
                ==> self.choice_availability_count@[i].0 != self.choice_availability_count@[j].0)
        &&& (forall|i: int|
            0 <= i < self.choice_availability_count@.len() ==> (#[trigger] self
                .choice_availability_count@[i]).1 <= MAX_GAMES)
        &&& (forall|i: int|
            0 <= i < self.children@.len() ==> self.has_avail(
                (#[trigger] self.children@[i]).choice.unwrap(),
            ))
    }

    /// Whether a child keyed by `c` exists.
    pub open spec fn has_child(self, c: u64) -> bool {
        exists|i: int| 0 <= i < self.children@.len() && self.children@[i].choice == Some(c)
    }

    /// `m` indexes the first action in `cs` that has no child in `self`.
    pub open spec fn first_uncovered(self, cs: Seq<u64>, m: int) -> bool {
        &&& 0 <= m < cs.len()
        &&& !self.has_child(cs[m])
        &&& forall|l: int| 0 <= l < m ==> self.has_child(#[trigger] cs[l])
    }

    /// `added` is the first action in `cs` that has no child in `self`.
    pub open spec fn is_first_uncovered(self, cs: Seq<u64>, added: u64) -> bool {
        exists|m: int| self.first_uncovered(cs, m) && cs[m] == added
    }

    /// With distinct availability keys, the entry at any index is the one
    /// `spec_avail_count` speaks of.
    proof fn lemma_avail_at(self, j: int)
        requires
            forall|a: int, b: int|
                0 <= a < b < self.choice_availability_count@.len()
                    ==> self.choice_availability_count@[a].0
                    != self.choice_availability_count@[b].0,
            0 <= j < self.choice_availability_count@.len(),
        ensures
            self.has_avail(self.choice_availability_count@[j].0),
            self.spec_avail_count(self.choice_availability_count@[j].0)
                == self.choice_availability_count@[j].1,
    {
        let c = self.choice_availability_count@[j].0;
        assert(self.has_avail(c));
        let k = choose|k: int|
            0 <= k < self.choice_availability_count@.len()
                && self.choice_availability_count@[k].0 == c;
        if k != j {
            if k < j {
                assert(self.choice_availability_count@[k].0
                    != self.choice_availability_count@[j].0);
            } else {
                assert(self.choice_availability_count@[j].0
                    != self.choice_availability_count@[k].0);
            }
        }
    }

    /// The position of the availability entry for `c`, if one exists.
    fn find_avail_index(&self, c: u64) -> (r: Option<usize>)
        ensures
            match r {
                Some(k) => k < self.choice_availability_count@.len()
                    && self.choice_availability_count@[k as int].0 == c,
                None => !self.has_avail(c),
            },
    {
        let mut i: usize = 0;
        while i < self.choice_availability_count.len()
            invariant
                i <= self.choice_availability_count@.len(),
                forall|j: int| 0 <= j < i ==> self.choice_availability_count@[j].0 != c,
            decreases self.choice_availability_count@.len() - i,
        {
            if self.choice_availability_count[i].0 == c {
                return Some(i);
            }
            i = i + 1;
        }
        None
    }

    /// Whether a child keyed by `c` already exists.
    fn has_child_exec(&self, c: u64) -> (r: bool)
        ensures
            r == self.has_child(c),
    {
        let mut i: usize = 0;
        while i < self.children.len()
            invariant
                i <= self.children@.len(),
                forall|j: int| 0 <= j < i ==> self.children@[j].choice != Some(c),
            decreases self.children@.len() - i,
        {
            let ci = &self.children[i];
            match ci.choice {
                Some(cc) => {
                    if cc == c {
                        return true;
                    }
                },
                None => {},
            }
            i = i + 1;
        }
        false
    }

    /// One expansion pass. The root is expanded exactly once, materializing a
    /// child for every legal action; a non-root node gains at most one new
    /// child per pass, preferring the first not-yet-materialized action in
    /// (possibly shuffled) order. Every sighted action's availability count
    /// is incremented, a first sighting starting from 0. Returns the sighted
    /// legal-action list, or `None` for an already-expanded root.
    fn expand<G: Game>(&mut self, game: &G, shuffle: bool) -> (r: Option<Vec<u64>>)
        requires
            old(self).wf(),
            old(self).games < MAX_GAMES,
        ensures
            final(self).games == old(self).games,
            final(self).cumulative_reward == old(self).cumulative_reward,
            final(self).player_id == old(self).player_id,
            final(self).choice == old(self).choice,
            (r is None) <==> (old(self).choice is None && old(self).children@.len() > 0),
            r is None ==> *final(self) == *old(self),
            r is Some ==> {
                let cs = r.unwrap()@;
                &&& cs.to_multiset() == game.choices().to_multiset()
                &&& (!shuffle ==> cs == game.choices())
                &&& cs.no_duplicates()
            },
            // structure after a real expansion
            forall|i: int|
                0 <= i < final(self).children@.len() ==> (#[trigger] final(self).children@[i]).choice is Some,
            forall|i: int, j: int|
                0 <= i < j < final(self).children@.len() ==> final(self).children@[i].choice
                    != final(self).children@[j].choice,
            forall|i: int|
                0 <= i < final(self).children@.len() ==> (#[trigger] final(self).children@[i]).wf(),
            forall|i: int|
                0 <= i < final(self).children@.len() ==> (#[trigger] final(self).children@[i]).games <= old(self).games,
            forall|i: int, j: int|
                0 <= i < j < final(self).choice_availability_count@.len() ==> final(self).choice_availability_count@[i].0 != final(self).choice_availability_count@[j].0,
            forall|i: int|
                0 <= i < final(self).choice_availability_count@.len() ==> (#[trigger] final(self).choice_availability_count@[i]).1 <= old(self).games + 1,
            forall|i: int|
                0 <= i < final(self).children@.len() ==> final(self).has_avail(
                    (#[trigger] final(self).children@[i]).choice.unwrap(),
                ),
            // old children are preserved in place
            final(self).children@.len() >= old(self).children@.len(),
            forall|i: int|
                0 <= i < old(self).children@.len() ==> final(self).children@[i] == old(self).children@[i],
            // any new child is fresh and keyed by a sighted action
            forall|i: int|
                old(self).children@.len() <= i < final(self).children@.len() ==> {
                    &&& (#[trigger] final(self).children@[i]).games == 0
                    &&& final(self).children@[i].cumulative_reward == 0
                    &&& final(self).children@[i].player_id == game.active_player()
                    &&& game.choices().contains(final(self).children@[i].choice.unwrap())
                    &&& !old(self).has_child(final(self).children@[i].choice.unwrap())
                },
            // the root materializes every sighted action
            r is Some && old(self).choice is None ==> forall|c: u64|
                game.choices().contains(c) ==> final(self).has_child(c),
            // a non-root node gains at most one child, and exactly one when a
            // sighted action was missing
            old(self).choice is Some ==> final(self).children@.len() <= old(self).children@.len() + 1,
            old(self).choice is Some && (exists|c: u64|
                game.choices().contains(c) && !old(self).has_child(c)) ==> final(self).children@.len() == old(self).children@.len() + 1,
            // the one new child of a non-root node takes the first action in
            // sighted order that had no child yet
            old(self).choice is Some && r is Some && final(self).children@.len() == old(self).children@.len() + 1 ==> old(self).is_first_uncovered(
                r.unwrap()@,
                final(self).children@[old(self).children@.len() as int].choice.unwrap(),
            ),
            // availability bookkeeping: counts grow by one per sighting
            r is Some ==> forall|c: u64|
                old(self).has_avail(c) ==> #[trigger] final(self).spec_avail_count(c) == old(self).spec_avail_count(c) + (if game.choices().contains(c) {
                    1int
                } else {
                    0int
                }),
            r is Some ==> forall|c: u64|
                !old(self).has_avail(c) && game.choices().contains(c) ==> final(self).has_avail(c)
                    && #[trigger] final(self).spec_avail_count(c) == 0,
            forall|c: u64| old(self).has_avail(c) ==> #[trigger] final(self).has_avail(c),
            forall|c: u64|
                #[trigger] final(self).has_avail(c) ==> old(self).has_avail(c)
                    || game.choices().contains(c),
    {
        if self.is_root() && self.children.len() > 0 {
            return None;
        }
        let active_player = game.get_active_player_id();
        let root = self.is_root();
        let mut choices = game.get_all_choices();
        if shuffle {
            rng::shuffle_choices(&mut choices);
            proof {
                game.choices().lemma_multiset_has_no_duplicates();
                choices@.lemma_multiset_has_no_duplicates_conv();
            }
        }
        let ghost cs = choices@;
        let mut added_new_node = false;
        let mut idx: usize = 0;
        while idx < choices.len()
            invariant
                idx <= cs.len(),
                choices@ == cs,
                cs.no_duplicates(),
                cs.to_multiset() == game.choices().to_multiset(),
                self.games == old(self).games,
                self.cumulative_reward == old(self).cumulative_reward,
                self.player_id == old(self).player_id,
                self.choice == old(self).choice,
                old(self).games < MAX_GAMES,
                root == (old(self).choice is None),
                active_player == game.active_player(),
                root ==> old(self).children@.len() == 0,
                old(self).wf(),
                // availability keys stay distinct
                forall|a: int, b: int|
                    0 <= a < b < self.choice_availability_count@.len()
                        ==> self.choice_availability_count@[a].0
                        != self.choice_availability_count@[b].0,
                // processed sightings are recorded
                forall|c: u64|
                    old(self).has_avail(c) ==> #[trigger] self.spec_avail_count(c) == old(self).spec_avail_count(c) + (if cs.take(idx as int).contains(c) {
                        1int
                    } else {
                        0int
                    }) && self.has_avail(c),
                forall|c: u64|
                    !old(self).has_avail(c) && cs.take(idx as int).contains(c)
                        ==> #[trigger] self.has_avail(c) && self.spec_avail_count(c) == 0,
                forall|c: u64|
                    #[trigger] self.has_avail(c) ==> old(self).has_avail(c) || cs.take(
                        idx as int,
                    ).contains(c),
                forall|i: int|
                    0 <= i < self.choice_availability_count@.len() ==> (#[trigger] self
                        .choice_availability_count@[i]).1 <= old(self).games + 1,
                // children bookkeeping
                self.children@.len() >= old(self).children@.len(),
                forall|i: int|
                    0 <= i < old(self).children@.len() ==> self.children@[i] == old(self).children@[i],
                forall|i: int|
                    0 <= i < self.children@.len() ==> (#[trigger] self.children@[i]).choice
                        is Some,
                forall|i: int, j: int|
                    0 <= i < j < self.children@.len() ==> self.children@[i].choice
                        != self.children@[j].choice,
                forall|i: int|
                    0 <= i < self.children@.len() ==> (#[trigger] self.children@[i]).wf(),
                forall|i: int|
                    0 <= i < self.children@.len() ==> (#[trigger] self.children@[i]).games <= old(self).games,
                forall|i: int|
                    0 <= i < self.children@.len() ==> self.has_avail(
                        (#[trigger] self.children@[i]).choice.unwrap(),
                    ),
                forall|i: int|
                    old(self).children@.len() <= i < self.children@.len() ==> {
                        &&& (#[trigger] self.children@[i]).games == 0
                        &&& self.children@[i].cumulative_reward == 0
                        &&& self.children@[i].player_id == game.active_player()
                        &&& cs.take(idx as int).contains(self.children@[i].choice.unwrap())
                        &&& !old(self).has_child(self.children@[i].choice.unwrap())
                    },
                root ==> forall|c: u64| cs.take(idx as int).contains(c) ==> self.has_child(c),
                !root ==> self.children@.len() <= old(self).children@.len() + 1,
                !root ==> added_new_node == (self.children@.len() == old(self).children@.len()
                    + 1),
                !root && !added_new_node ==> forall|c: u64|
                    cs.take(idx as int).contains(c) ==> self.has_child(c),
                !root && added_new_node ==> exists|m: int|
                    old(self).first_uncovered(cs, m) && cs[m] == self.children@[old(self).children@.len() as int].choice.unwrap(),
            decreases cs.len() - idx,
        {
            let c = choices[idx];
            let ghost pre = *self;
            proof {
                assert(cs.take(idx as int + 1) =~= cs.take(idx as int).push(c));
                assert(cs.contains(c));
                assert(game.choices().to_multiset().count(c) > 0);
            }
            match self.find_avail_index(c) {
                Some(k) => {
                    proof {
                        pre.lemma_avail_at(k as int);
                        assert(!cs.take(idx as int).contains(c)) by {
                            if cs.take(idx as int).contains(c) {
                                let j = choose|j: int|
                                    0 <= j < idx as int && cs.take(idx as int)[j] == c;
                                assert(cs[j] == cs[idx as int]);
                            }
                        }
                    }
                    let cnt = self.choice_availability_count[k].1;
                    let _ = self.choice_availability_count.remove(k);
                    self.choice_availability_count.insert(k, (c, cnt + 1));
                    proof {
                        assert(self.choice_availability_count@ =~= pre
                            .choice_availability_count@.update(k as int, (c, (cnt + 1) as u64)));
                        assert forall|c2: u64| #[trigger] self.has_avail(c2) implies pre.has_avail(
                            c2,
                        ) by {
                            let j = choose|j: int|
                                0 <= j < self.choice_availability_count@.len()
                                    && self.choice_availability_count@[j].0 == c2;
                            assert(pre.choice_availability_count@[j].0 == c2 || j == k);
                        }
                        assert forall|c2: u64| #[trigger] pre.has_avail(c2) implies self
                            .has_avail(c2) by {
                            let j = choose|j: int|
                                0 <= j < pre.choice_availability_count@.len()
                                    && pre.choice_availability_count@[j].0 == c2;
                            if j == k as int {
                                assert(pre.choice_availability_count@[k as int].0 == c);
                                assert(self.choice_availability_count@[k as int].0 == c2);
                            } else {
                                assert(self.choice_availability_count@[j].0 == c2);
                            }
                        }
                        assert forall|c2: u64| #[trigger] self.has_avail(c2) implies (if c2 == c {
                            self.spec_avail_count(c2) == pre.spec_avail_count(c2) + 1
                        } else {
                            self.spec_avail_count(c2) == pre.spec_avail_count(c2)
                        }) by {
                            if c2 == c {
                                self.lemma_avail_at(k as int);
                            } else {
                                let j = choose|j: int|
                                    0 <= j < self.choice_availability_count@.len()
                                        && self.choice_availability_count@[j].0 == c2;
                                assert(j != k);
                                self.lemma_avail_at(j);
                                pre.lemma_avail_at(j);
                            }
                        }
                    }
                },
                None => {
                    self.choice_availability_count.push((c, 0));
                    proof {
                        let ghost n = self.choice_availability_count@.len() - 1;
                        assert(self.choice_availability_count@ =~= pre
                            .choice_availability_count@.push((c, 0u64)));
                        assert forall|c2: u64| #[trigger] self.has_avail(c2) implies pre.has_avail(
                            c2,
                        ) || c2 == c by {
                            let j = choose|j: int|
                                0 <= j < self.choice_availability_count@.len()
                                    && self.choice_availability_count@[j].0 == c2;
                            if j < n {
                                assert(pre.choice_availability_count@[j].0 == c2);
                            }
                        }
                        assert forall|c2: u64| #[trigger] pre.has_avail(c2) implies self
                            .has_avail(c2) by {
                            let j = choose|j: int|
                                0 <= j < pre.choice_availability_count@.len()
                                    && pre.choice_availability_count@[j].0 == c2;
                            assert(self.choice_availability_count@[j].0 == c2);
                        }
                        assert(self.has_avail(c)) by {
                            assert(self.choice_availability_count@[n].0 == c);
                        }
                        assert forall|c2: u64| #[trigger] self.has_avail(c2) implies (if c2 == c {
                            self.spec_avail_count(c2) == 0
                        } else {
                            self.spec_avail_count(c2) == pre.spec_avail_count(c2)
                        }) by {
                            if c2 == c {
                                self.lemma_avail_at(n);
                            } else {
                                let j = choose|j: int|
                                    0 <= j < self.choice_availability_count@.len()
                                        && self.choice_availability_count@[j].0 == c2;
                                assert(j != n);
                                self.lemma_avail_at(j);
                                pre.lemma_avail_at(j);
                            }
                        }
                    }
                },
            }
            let ghost mid = *self;
            let make_child = if root {
                !self.has_child_exec(c)
            } else {
                !added_new_node && !self.has_child_exec(c)
            };
            if make_child {
                let child = MonteCarloTreeNode::new(active_player, Some(c));
                self.children.push(child);
                added_new_node = true;
                proof {
                    assert(self.children@ =~= mid.children@.push(child));
                    assert forall|c2: u64| mid.has_child(c2) implies #[trigger] self.has_child(
                        c2,
                    ) by {
                        let j = choose|j: int|
                            0 <= j < mid.children@.len() && mid.children@[j].choice == Some(c2);
                        assert(self.children@[j].choice == Some(c2));
                    }
                    assert(self.has_child(c)) by {
                        assert(self.children@[self.children@.len() - 1].choice == Some(c));
                    }
                    assert(!old(self).has_child(c)) by {
                        if old(self).has_child(c) {
                            let j = choose|j: int|
                                0 <= j < old(self).children@.len() && old(self).children@[j].choice == Some(c);
                            assert(mid.children@[j].choice == Some(c));
                            assert(mid.has_child(c));
                        }
                    }
                    if !root {
                        // every action sighted before this one already had a
                        // child, so this one is the first uncovered action
                        assert(mid.children@.len() == old(self).children@.len());
                        assert(self.children@[old(self).children@.len() as int] == child);
                        assert forall|l: int| 0 <= l < idx as int implies old(self).has_child(
                            #[trigger] cs[l],
                        ) by {
                            assert(cs.take(idx as int)[l] == cs[l]);
                            assert(cs.take(idx as int).contains(cs[l]));
                            assert(pre.has_child(cs[l]));
                            let j = choose|j: int|
                                0 <= j < pre.children@.len() && pre.children@[j].choice == Some(
                                    cs[l],
                                );
                            assert(old(self).children@[j].choice == Some(cs[l]));
                        }
                        assert(cs[idx as int] == c);
                        assert(old(self).first_uncovered(cs, idx as int));
                    }
                    // pushing a child leaves the availability table untouched
                    assert(self.choice_availability_count@ =~= mid.choice_availability_count@);
                    assert forall|c2: u64| #[trigger] mid.has_avail(c2) implies self.has_avail(
                        c2,
                    ) by {
                        let j = choose|j: int|
                            0 <= j < mid.choice_availability_count@.len()
                                && mid.choice_availability_count@[j].0 == c2;
                        assert(self.choice_availability_count@[j].0 == c2);
                    }
                    assert forall|c2: u64| #[trigger] self.has_avail(c2) implies mid.has_avail(
                        c2,
                    ) by {
                        let j = choose|j: int|
                            0 <= j < self.choice_availability_count@.len()
                                && self.choice_availability_count@[j].0 == c2;
                        assert(mid.choice_availability_count@[j].0 == c2);
                    }
                    assert forall|c2: u64| #[trigger] self.spec_avail_count(c2) == mid
                        .spec_avail_count(c2) by {
                        if mid.has_avail(c2) {
                            let j = choose|j: int|
                                0 <= j < mid.choice_availability_count@.len()
                                    && mid.choice_availability_count@[j].0 == c2;
                            mid.lemma_avail_at(j);
                            self.lemma_avail_at(j);
                        }
                    }
                }
            }
            proof {
                let gi = idx as int;
                assert forall|c2: u64|
                    #[trigger] cs.take(gi + 1).contains(c2) == (cs.take(gi).contains(c2) || c2
                        == c) by {
                    if cs.take(gi).contains(c2) {
                        let j = choose|j: int| 0 <= j < gi && cs.take(gi)[j] == c2;
                        assert(cs.take(gi + 1)[j] == c2);
                    }
                    if c2 == c {
                        assert(cs.take(gi + 1)[gi] == c2);
                    }
                    if cs.take(gi + 1).contains(c2) {
                        let j = choose|j: int| 0 <= j < gi + 1 && #[trigger] cs.take(gi + 1)[j] == c2;
                        if j < gi {
                            assert(cs.take(gi)[j] == c2);
                        }
                    }
                }
                if old(self).has_avail(c) {
                    let j = choose|j: int|
                        0 <= j < old(self).choice_availability_count@.len() && old(self).choice_availability_count@[j].0 == c;
                    old(self).lemma_avail_at(j);
                }
                assert forall|c2: u64| old(self).has_avail(c2) implies #[trigger] self
                    .spec_avail_count(c2) == old(self).spec_avail_count(c2) + (if cs.take(
                    gi + 1,
                ).contains(c2) {
                    1int
                } else {
                    0int
                }) && self.has_avail(c2) by {
                    assert(pre.spec_avail_count(c2) == old(self).spec_avail_count(c2) + (if cs
                        .take(gi).contains(c2) {
                        1int
                    } else {
                        0int
                    }));
                    assert(pre.has_avail(c2));
                    assert(self.has_avail(c2));
                    if c2 == c {
                        assert(cs.take(gi + 1).contains(c2));
                        assert(!cs.take(gi).contains(c2)) by {
                            if cs.take(gi).contains(c2) {
                                let j = choose|j: int| 0 <= j < gi && cs.take(gi)[j] == c2;
                                assert(cs[j] == cs[gi]);
                            }
                        }
                        assert(self.spec_avail_count(c2) == pre.spec_avail_count(c2) + 1);
                    } else {
                        assert(self.spec_avail_count(c2) == pre.spec_avail_count(c2));
                        assert(cs.take(gi + 1).contains(c2) == cs.take(gi).contains(c2));
                    }
                }
                assert forall|c2: u64|
                    !old(self).has_avail(c2) && cs.take(gi + 1).contains(c2)
                        implies #[trigger] self.has_avail(c2) && self.spec_avail_count(c2)
                        == 0 by {
                    if c2 == c {
                        assert(!cs.take(gi).contains(c2)) by {
                            if cs.take(gi).contains(c2) {
                                let j = choose|j: int| 0 <= j < gi && cs.take(gi)[j] == c2;
                                assert(cs[j] == cs[gi]);
                            }
                        }
                        if pre.has_avail(c2) {
                            assert(false);
                        }
                        assert(self.has_avail(c2) && self.spec_avail_count(c2) == 0);
                    } else {
                        assert(cs.take(gi).contains(c2));
                        assert(pre.has_avail(c2) && pre.spec_avail_count(c2) == 0);
                        assert(self.has_avail(c2));
                        assert(self.spec_avail_count(c2) == pre.spec_avail_count(c2));
                    }
                }
                assert forall|c2: u64| #[trigger] self.has_avail(c2) implies old(self).has_avail(
                    c2,
                ) || cs.take(gi + 1).contains(c2) by {
                    assert(pre.has_avail(c2) || c2 == c);
                    if c2 == c {
                        assert(cs.take(gi + 1).contains(c2));
                    } else {
                        assert(pre.has_avail(c2));
                        if !old(self).has_avail(c2) {
                            assert(cs.take(gi).contains(c2));
                            assert(cs.take(gi + 1).contains(c2));
                        }
                    }
                }
                assert forall|i: int|
                    old(self).children@.len() <= i < self.children@.len() implies ((#[trigger] self
                        .children@[i]).games == 0 && self.children@[i].cumulative_reward == 0
                        && self.children@[i].player_id == game.active_player() && cs.take(
                        gi + 1,
                    ).contains(self.children@[i].choice.unwrap()) && !old(self).has_child(
                        self.children@[i].choice.unwrap(),
                    )) by {
                    if i < pre.children@.len() {
                        assert(self.children@[i] == pre.children@[i]);
                        assert((#[trigger] pre.children@[i]).games == 0);
                        let c2 = pre.children@[i].choice.unwrap();
                        assert(cs.take(gi).contains(c2));
                        assert(cs.take(gi + 1).contains(c2));
                    } else {
                        assert(self.children@[i].choice == Some(c));
                        assert(cs.take(gi + 1).contains(c));
                    }
                }
                assert forall|c2: u64|
                    (!root && !added_new_node && cs.take(gi + 1).contains(c2)) implies self
                        .has_child(c2) by {
                    if c2 == c {
                        assert(self.has_child(c));
                    } else {
                        assert(cs.take(gi).contains(c2));
                        assert(pre.has_child(c2));
                        let j = choose|j: int|
                            0 <= j < pre.children@.len() && pre.children@[j].choice == Some(c2);
                        assert(self.children@[j].choice == Some(c2));
                    }
                }
                assert forall|c2: u64| (root && cs.take(gi + 1).contains(c2)) implies self
                    .has_child(c2) by {
                    if c2 == c {
                        assert(self.has_child(c));
                    } else {
                        assert(cs.take(gi).contains(c2));
                        assert(pre.has_child(c2));
                        let j = choose|j: int|
                            0 <= j < pre.children@.len() && pre.children@[j].choice == Some(c2);
                        assert(self.children@[j].choice == Some(c2));
                    }
                }
            }
            idx = idx + 1;
        }
        proof {
            assert(cs.take(idx as int) =~= cs);
            assert forall|c2: u64| game.choices().contains(c2) implies cs.contains(c2) by {
                assert(game.choices().to_multiset().count(c2) > 0);
                assert(cs.to_multiset().count(c2) > 0);
            }
            assert forall|c2: u64| cs.contains(c2) implies game.choices().contains(c2) by {
                assert(cs.to_multiset().count(c2) > 0);
                assert(game.choices().to_multiset().count(c2) > 0);
            }
            assert forall|c2: u64| old(self).has_avail(c2) implies #[trigger] self.has_avail(
                c2,
            ) by {
                assert(self.spec_avail_count(c2) >= 0);
            }
            if !(old(self).choice is None) && self.children@.len() == old(self).children@.len()
                + 1 {
                let m = choose|m: int|
                    old(self).first_uncovered(cs, m) && cs[m] == self.children@[old(self).children@.len() as int].choice.unwrap();
                assert(old(self).is_first_uncovered(
                    choices@,
                    self.children@[old(self).children@.len() as int].choice.unwrap(),
                )) by {
                    assert(old(self).first_uncovered(choices@, m));
                    assert(choices@[m] == self.children@[old(self).children@.len() as int]
                        .choice.unwrap());
                }
            }
            if old(self).choice is Some && exists|c: u64|
                game.choices().contains(c) && !old(self).has_child(c) {
                let c = choose|c: u64| game.choices().contains(c) && !old(self).has_child(c);
                if self.children@.len() == old(self).children@.len() {
                    assert(self.children@ =~= old(self).children@);
                    assert(self.has_child(c));
                    let j = choose|j: int|
                        0 <= j < self.children@.len() && self.children@[j].choice == Some(c);
                    assert(old(self).children@[j].choice == Some(c));
                    assert(false);
                }
            }
        }
        Some(choices)
    }
}

/// Nodes with equal availability tables agree on every availability query.
proof fn lemma_avail_same_table(a: MonteCarloTreeNode, b: MonteCarloTreeNode)
    requires
        a.choice_availability_count@ == b.choice_availability_count@,
        forall|i: int, j: int|
            0 <= i < j < a.choice_availability_count@.len() ==> a.choice_availability_count@[i].0
                != a.choice_availability_count@[j].0,
    ensures
        forall|c: u64| #[trigger] a.has_avail(c) == b.has_avail(c),
        forall|c: u64| #[trigger] a.spec_avail_count(c) == b.spec_avail_count(c),
{
    assert forall|c: u64| #[trigger] a.has_avail(c) == b.has_avail(c) by {
        if a.has_avail(c) {
            let j = choose|j: int|
                0 <= j < a.choice_availability_count@.len() && a.choice_availability_count@[j].0
                    == c;
            assert(b.choice_availability_count@[j].0 == c);
        }
        if b.has_avail(c) {
            let j = choose|j: int|
                0 <= j < b.choice_availability_count@.len() && b.choice_availability_count@[j].0
                    == c;
            assert(a.choice_availability_count@[j].0 == c);
        }
    }
    assert forall|c: u64| #[trigger] a.spec_avail_count(c) == b.spec_avail_count(c) by {
        if a.has_avail(c) {
            let j = choose|j: int|
                0 <= j < a.choice_availability_count@.len() && a.choice_availability_count@[j].0
                    == c;
            a.lemma_avail_at(j);
            b.lemma_avail_at(j);
        }
    }
}

/// The win rate `cumulative_reward / games` in Q16.16 fixed point, rounded
/// toward zero.
pub open spec fn spec_win_rate_fp(cumulative_reward: int, games: int) -> int {
    if cumulative_reward >= 0 {
        cumulative_reward * 65536 / games
    } else {
        -((-cumulative_reward) * 65536 / games)
    }
}

/// The upper-confidence value `win_rate + c * sqrt(ln(total) / games)` in
/// Q16.16 fixed point.
pub open spec fn spec_ucb(
    cumulative_reward: int,
    games: int,
    total_game_count: int,
    c_fp: int,
) -> int {
    spec_win_rate_fp(cumulative_reward, games) + c_fp * spec_isqrt(
        (spec_ln_fp(total_game_count as nat) * 65536 / games) as nat,
    ) / 65536
}

/// The upper-confidence value stays far below `FIRST_PLAY_VALUE`, so a
/// visited child can never outrank an unvisited one under the vanilla policy.
pub proof fn lemma_ucb_in_range(
    cumulative_reward: int,
    games: int,
    total_game_count: int,
    c_fp: int,
)
    requires
        1 <= games <= MAX_GAMES,
        0 <= total_game_count < 0x1_0000_0000,
        0 <= c_fp <= 0x4_0000,
        -(games * (MAX_ABS_REWARD as int)) <= cumulative_reward <= games * (MAX_ABS_REWARD as int),
    ensures
        -0x8000_0000 <= spec_ucb(cumulative_reward, games, total_game_count, c_fp) <= 0x8080_0000,
        spec_ucb(cumulative_reward, games, total_game_count, c_fp) < FIRST_PLAY_VALUE as int,
{
    let wr = spec_win_rate_fp(cumulative_reward, games);
    assert(0 <= wr <= 0x8000_0000 || -0x8000_0000 <= wr <= 0) by {
        if cumulative_reward >= 0 {
            vstd::arithmetic::div_mod::lemma_div_pos_is_pos(cumulative_reward * 65536, games);
            assert(cumulative_reward * 65536 <= games * 0x8000_0000) by (nonlinear_arith)
                requires
                    cumulative_reward <= games * 32768,
            ;
            vstd::arithmetic::div_mod::lemma_multiply_divide_le(
                cumulative_reward * 65536,
                games,
                0x8000_0000,
            );
        } else {
            vstd::arithmetic::div_mod::lemma_div_pos_is_pos((-cumulative_reward) * 65536, games);
            assert((-cumulative_reward) * 65536 <= games * 0x8000_0000) by (nonlinear_arith)
                requires
                    -cumulative_reward <= games * 32768,
            ;
            vstd::arithmetic::div_mod::lemma_multiply_divide_le(
                (-cumulative_reward) * 65536,
                games,
                0x8000_0000,
            );
        }
    }
    let lnv = spec_ln_fp(total_game_count as nat);
    crate::numeric::lemma_ln_fp_bound(total_game_count as nat);
    let ratio = lnv * 65536 / games;
    assert(0 <= ratio < 0x163_0000_0000) by {
        vstd::arithmetic::div_mod::lemma_div_pos_is_pos(lnv * 65536, games);
        assert(lnv * 65536 < 0x163_0000_0000) by (nonlinear_arith)
            requires
                0 <= lnv < 0x16_3000,
        ;
        vstd::arithmetic::div_mod::lemma_div_nonincreasing(lnv * 65536, games);
    }
    let s = spec_isqrt(ratio as nat);
    crate::numeric::lemma_isqrt_bounds(ratio as nat);
    assert(s * s < 0x400_0000_0000);
    assert(s < 0x20_0000) by (nonlinear_arith)
        requires
            s * s < 0x400_0000_0000,
    ;
    let term = c_fp * s / 65536;
    assert(0 <= term <= 0x80_0000) by {
        vstd::arithmetic::div_mod::lemma_div_pos_is_pos(c_fp * s, 65536);
        assert(c_fp * s <= 0x4_0000 * 0x20_0000) by (nonlinear_arith)
            requires
                0 <= c_fp <= 0x4_0000,
                0 <= s <= 0x20_0000,
        ;
        vstd::arithmetic::div_mod::lemma_div_is_ordered(c_fp * s, 0x4_0000int * 0x20_0000, 65536);
    }
}

/// The upper-confidence formula in Q16.16 fixed point: `c_fp` is the
/// exploration constant, `total_game_count` the normalization count for the
/// exploration term.
pub fn upper_confidence_bound(
    cumulative_reward: i64,
    games: u64,
    total_game_count: u64,
    c_fp: u64,
) -> (r: i64)
    requires
        1 <= games <= MAX_GAMES,
        total_game_count < 0x1_0000_0000,
        c_fp <= 0x4_0000,
        -((games as int) * (MAX_ABS_REWARD as int)) <= cumulative_reward as int <= (games as int)
            * (MAX_ABS_REWARD as int),
    ensures
        r as int == spec_ucb(
            cumulative_reward as int,
            games as int,
            total_game_count as int,
            c_fp as int,
        ),
        -0x8000_0000 <= r <= 0x8080_0000,
        r < FIRST_PLAY_VALUE,
{
    proof {
        lemma_ucb_in_range(
            cumulative_reward as int,
            games as int,
            total_game_count as int,
            c_fp as int,
        );
        if cumulative_reward >= 0 {
            vstd::arithmetic::div_mod::lemma_div_pos_is_pos(
                (cumulative_reward as int) * 65536,
                games as int,
            );
            assert((cumulative_reward as int) * 65536 <= (games as int) * 0x8000_0000)
                by (nonlinear_arith)
                requires
                    cumulative_reward as int <= (games as int) * 32768,
            ;
            vstd::arithmetic::div_mod::lemma_multiply_divide_le(
                (cumulative_reward as int) * 65536,
                games as int,
                0x8000_0000,
            );
        } else {
            vstd::arithmetic::div_mod::lemma_div_pos_is_pos(
                (-(cumulative_reward as int)) * 65536,
                games as int,
            );
            assert((-(cumulative_reward as int)) * 65536 <= (games as int) * 0x8000_0000)
                by (nonlinear_arith)
                requires
                    -(cumulative_reward as int) <= (games as int) * 32768,
            ;
            vstd::arithmetic::div_mod::lemma_multiply_divide_le(
                (-(cumulative_reward as int)) * 65536,
                games as int,
                0x8000_0000,
            );
        }
    }
    let win_rate: i64 = if cumulative_reward >= 0 {
        (((cumulative_reward as u64) * crate::numeric::FP_SCALE) / games) as i64
    } else {
        -(((((-cumulative_reward) as u64) * crate::numeric::FP_SCALE) / games) as i64)
    };
    let lnv: u64 = crate::numeric::ln_fp(total_game_count);
    let ratio: u64 = lnv * crate::numeric::FP_SCALE / games;
    proof {
        vstd::arithmetic::div_mod::lemma_div_pos_is_pos((lnv as int) * 65536, games as int);
        vstd::arithmetic::div_mod::lemma_div_nonincreasing((lnv as int) * 65536, games as int);
    }
    let s: u64 = crate::numeric::isqrt(ratio);
    proof {
        crate::numeric::lemma_isqrt_bounds(ratio as nat);
        assert((s as nat) * (s as nat) < 0x400_0000_0000);
        assert(s < 0x20_0000) by (nonlinear_arith)
            requires
                (s as nat) * (s as nat) < 0x400_0000_0000,
        ;
        vstd::arithmetic::div_mod::lemma_div_pos_is_pos((c_fp as int) * (s as int), 65536);
        assert((c_fp as int) * (s as int) <= 0x4_0000 * 0x20_0000) by (nonlinear_arith)
            requires
                0 <= c_fp <= 0x4_0000,
                0 <= s <= 0x20_0000,
        ;
        vstd::arithmetic::div_mod::lemma_div_is_ordered(
            (c_fp as int) * (s as int),
            0x4_0000int * 0x20_0000,
            65536,
        );
    }
    let term: i64 = ((c_fp * s) / crate::numeric::FP_SCALE) as i64;
    win_rate + term
}

/// Depth budget for one descent or playout; deep enough never to bind in
/// practice, it makes termination of the engine a theorem.
pub const DEPTH_LIMIT: u64 = 0xFFFF_FFFF_FFFF_FFFF;

/// One completed pass touched exactly one child: child `b` gained exactly
/// one visit, every other previously existing child is unchanged, whole
/// subtree included, and any newly materialized child is unvisited.
pub open spec fn one_visit_added(
    pre: Seq<MonteCarloTreeNode>,
    post: Seq<MonteCarloTreeNode>,
    b: int,
) -> bool {
    &&& 0 <= b < post.len()
    &&& post.len() >= pre.len()
    &&& (forall|i: int| 0 <= i < pre.len() ==> (#[trigger] post[i]).choice == pre[i].choice)
    &&& (forall|i: int| 0 <= i < pre.len() && i != b ==> #[trigger] post[i] == pre[i])
    &&& (forall|i: int| pre.len() <= i < post.len() && i != b ==> (#[trigger] post[i]).games == 0)
    &&& (b < pre.len() ==> post[b].games == pre[b].games + 1)
    &&& (b >= pre.len() ==> post[b].games == 1)
}

/// The search engine over a decision process, with overridable policy hooks.
/// The iteration loop, selection scaffold, rollout and backpropagation come
/// as verified default bodies; a policy supplies (or inherits) the two value
/// functions and may observe the search through the hooks.
pub trait MonteCarloTreeSearch: Sized {
    type Game: Game;

    /// The value selection assigns to a never-visited child.
    spec fn first_play_value_spec(
        &self,
        game: Self::Game,
        parent: MonteCarloTreeNode,
        child: MonteCarloTreeNode,
        choices: Option<Vec<u64>>,
    ) -> int;

    /// The value selection assigns to a visited child.
    spec fn selection_value_spec(
        &self,
        game: Self::Game,
        parent: MonteCarloTreeNode,
        child: MonteCarloTreeNode,
    ) -> int;

    fn get_first_play_value(
        &self,
        game: &Self::Game,
        parent: &MonteCarloTreeNode,
        child: &MonteCarloTreeNode,
        choices: &Option<Vec<u64>>,
    ) -> (r: i64)
        requires
            parent.select_ready(),
            child.games == 0,
            exists|i: int| 0 <= i < parent.children@.len() && parent.children@[i] == *child,
        ensures
            r as int == self.first_play_value_spec(*game, *parent, *child, *choices),
    ;

    fn get_selection_value(
        &self,
        game: &Self::Game,
        parent: &MonteCarloTreeNode,
        child: &MonteCarloTreeNode,
    ) -> (r: i64)
        requires
            parent.select_ready(),
            child.games >= 1,
            exists|i: int| 0 <= i < parent.children@.len() && parent.children@[i] == *child,
        ensures
            r as int == self.selection_value_spec(*game, *parent, *child),
    ;

    /// Runs the budgeted search and returns the root child with the most
    /// visits (robust-child decision) with the root's aggregate totals.
    fn monte_carlo_tree_search(&mut self, game: Self::Game, iterations: usize) -> (r: Result<
        (u64, MctsStats),
        MctsError,
    >)
        requires
            iterations <= MAX_GAMES,
        ensures
            r is Ok ==> r.unwrap().1.tree_games == iterations,
            (forall|g: Self::Game, p: u64| #[trigger] g.reward(p) == 1) && r is Ok ==> r.unwrap()
                .1.tree_cumulative_reward == iterations,
            iterations == 0 ==> r == Err::<(u64, MctsStats), MctsError>(
                MctsError::NoLegalActions,
            ),
    {
        let tree = match self.build_tree(game, iterations) {
            Ok(t) => t,
            Err(e) => {
                return Err(e);
            },
        };
        match tree.best_root_choice() {
            Option::Some(c) => Ok(
                (
                    c,
                    MctsStats {
                        tree_cumulative_reward: tree.cumulative_reward,
                        tree_games: tree.games,
                    },
                ),
            ),
            Option::None => Err(MctsError::NoLegalActions),
        }
    }

    /// Builds a fresh statistics tree by running `iterations` simulations
    /// from determinizations of `game`. The returned root counts exactly one
    /// completed visit per iteration; under a uniform payoff of one, its
    /// cumulative reward equals its visit count.
    fn build_tree(&mut self, game: Self::Game, iterations: usize) -> (r: Result<
        MonteCarloTreeNode,
        MctsError,
    >)
        requires
            iterations <= MAX_GAMES,
        ensures
            r is Ok ==> {
                let t = r.unwrap();
                &&& t.wf()
                &&& t.games == iterations
                &&& t.choice is None
                &&& t.player_id == game.active_player()
            },
            (forall|g: Self::Game, p: u64| #[trigger] g.reward(p) == 1) && r is Ok ==> r.unwrap()
                .cumulative_reward == iterations,
            iterations == 0 ==> r is Ok,
            iterations == 0 && r is Ok ==> r.unwrap().children@.len() == 0 && r.unwrap()
                .choice_availability_count@.len() == 0 && r.unwrap().cumulative_reward == 0,
    {
        let player_id = game.get_active_player_id();
        let mut tree = MonteCarloTreeNode::new(player_id, None);
        let mut i: usize = 0;
        while i < iterations
            invariant
                i <= iterations,
                iterations <= MAX_GAMES,
                tree.wf(),
                tree.games == i,
                tree.choice is None,
                tree.player_id == game.active_player(),
                (forall|g: Self::Game, p: u64| #[trigger] g.reward(p) == 1)
                    ==> tree.cumulative_reward == i,
                i == 0 ==> tree.children@.len() == 0 && tree.choice_availability_count@.len()
                    == 0 && tree.cumulative_reward == 0,
            decreases iterations - i,
        {
            let determinization = game.get_determinization(game.get_active_player_id());
            let g = match self.iteration(&mut tree, determinization, DEPTH_LIMIT) {
                Ok(g) => g,
                Err(e) => {
                    return Err(e);
                },
            };
            self.after_iteration(&g);
            i = i + 1;
        }
        Ok(tree)
    }

    /// Observation hook run after each completed iteration.
    fn after_iteration(&mut self, game: &Self::Game) {
        let _ = game;
    }

    /// One select/expand/rollout/backpropagate pass from `node`. On success
    /// the node's visit count rises by exactly one and its cumulative reward
    /// by the final state's reward for the node's owner; a failed pass leaves
    /// both untouched. Returns the final state of the pass.
    fn iteration(&mut self, node: &mut MonteCarloTreeNode, game: Self::Game, fuel: u64) -> (r:
        Result<Self::Game, MctsError>)
        requires
            old(node).wf(),
            old(node).games < MAX_GAMES,
        ensures
            final(node).player_id == old(node).player_id,
            final(node).choice == old(node).choice,
            r is Ok ==> {
                &&& final(node).wf()
                &&& final(node).games == old(node).games + 1
                &&& (r.unwrap().terminal() || r.unwrap().early_terminate())
                &&& final(node).cumulative_reward as int == old(node).cumulative_reward as int
                    + r.unwrap().reward(old(node).player_id)
            },
            r is Ok && game.terminal() ==> final(node).children == old(node).children
                && final(node).choice_availability_count == old(node).choice_availability_count,
            r is Ok && !game.terminal() ==> exists|b: int|
                one_visit_added(old(node).children@, final(node).children@, b),
            fuel == 0 ==> r == Err::<Self::Game, MctsError>(MctsError::DepthLimitExceeded),
            fuel > 0 && game.terminal() ==> r is Ok && r.unwrap() == game,
            fuel > 0 && !game.terminal() && game.choices().len() == 0 && old(node).children@.len() == 0 ==> r == Err::<Self::Game, MctsError>(
                MctsError::NoLegalActions,
            ),
            r is Ok && !game.terminal() && old(node).choice is None && old(node).children@.len()
                == 0 ==> forall|c: u64|
                game.choices().contains(c) ==> final(node).has_child(c),
            r is Err ==> final(node).games == old(node).games && final(node).cumulative_reward
                == old(node).cumulative_reward,
    ;

    /// Observation hook run after a child has been selected.
    fn after_selection(&mut self, game: &Self::Game, selected: &MonteCarloTreeNode) {
        let _ = game;
        let _ = selected;
    }

    /// Picks, among the children whose actions the process currently reports
    /// available, one maximizing the policy's selection value; reports
    /// `NoLegalActions` when no child qualifies, and only then.
    fn select(
        &self,
        node: &MonteCarloTreeNode,
        game: &Self::Game,
        choices: &Option<Vec<u64>>,
    ) -> (r: Result<usize, MctsError>)
        requires
            node.select_ready(),
        ensures
            match r {
                Ok(i) => 0 <= i < node.children@.len() && game.choice_available(
                    node.children@[i as int].choice.unwrap(),
                ) && forall|j: int|
                    0 <= j < node.children@.len() && game.choice_available(
                        (#[trigger] node.children@[j]).choice.unwrap(),
                    ) ==> (if node.children@[j].games == 0 { self.first_play_value_spec(*game, *node, node.children@[j], *choices) } else { self.selection_value_spec(*game, *node, node.children@[j]) }) <= (if node.children@[i as int].games == 0 { self.first_play_value_spec(*game, *node, node.children@[i as int], *choices) } else { self.selection_value_spec(*game, *node, node.children@[i as int]) }),
                Err(e) => e == MctsError::NoLegalActions && forall|j: int|
                    0 <= j < node.children@.len() ==> !game.choice_available(
                        (#[trigger] node.children@[j]).choice.unwrap(),
                    ),
            },
    {
        let mut best: Option<usize> = None;
        let mut best_value: i64 = 0;
        let mut i: usize = 0;
        while i < node.children.len()
            invariant
                i <= node.children@.len(),
                node.select_ready(),
                best is None ==> forall|j: int|
                    0 <= j < i ==> !game.choice_available(
                        (#[trigger] node.children@[j]).choice.unwrap(),
                    ),
                best is Some ==> {
                    let b = best.unwrap() as int;
                    &&& 0 <= b < i
                    &&& game.choice_available(node.children@[b].choice.unwrap())
                    &&& best_value as int == (if node.children@[b].games == 0 { self.first_play_value_spec(*game, *node, node.children@[b], *choices) } else { self.selection_value_spec(*game, *node, node.children@[b]) })
                    &&& forall|j: int|
                        0 <= j < i && game.choice_available(
                            (#[trigger] node.children@[j]).choice.unwrap(),
                        ) ==> (if node.children@[j].games == 0 { self.first_play_value_spec(*game, *node, node.children@[j], *choices) } else { self.selection_value_spec(*game, *node, node.children@[j]) }) <= best_value as int
                },
            decreases node.children@.len() - i,
        {
            let child = &node.children[i];
            let c = match child.choice {
                Option::Some(c) => c,
                Option::None => {
                    proof {
                        assert(false);
                    }
                    0
                },
            };
            if game.choice_is_available(c) {
                let v = if child.games == 0 {
                    self.get_first_play_value(game, node, child, choices)
                } else {
                    self.get_selection_value(game, node, child)
                };
                let take_it = match best {
                    Option::None => true,
                    Option::Some(_) => v >= best_value,
                };
                if take_it {
                    best = Some(i);
                    best_value = v;
                }
            }
            i = i + 1;
        }
        match best {
            Option::Some(b) => Ok(b),
            Option::None => Err(MctsError::NoLegalActions),
        }
    }

    /// Plays the process forward with its own playout policy until a terminal
    /// state or the early-termination heuristic; the statistics node is only
    /// observed, never changed.
    fn rollout(&mut self, node: &mut MonteCarloTreeNode, game: Self::Game) -> (r: Result<
        Self::Game,
        MctsError,
    >)
        ensures
            *final(node) == *old(node),
            r is Ok ==> (r.unwrap().terminal() || r.unwrap().early_terminate()),
            game.terminal() || game.early_terminate() ==> r is Ok && r.unwrap() == game,
    {
        let mut g = game;
        let mut fuel: u64 = DEPTH_LIMIT;
        let mut done = g.is_terminal() || g.heuristic_early_terminate();
        while !done
            invariant
                *node == *old(node),
                done ==> (g.terminal() || g.early_terminate()),
                game.terminal() || game.early_terminate() ==> g == game && done,
            decreases fuel,
        {
            if fuel == 0 {
                return Err(MctsError::DepthLimitExceeded);
            }
            let cs = g.get_all_choices();
            if cs.len() == 0 {
                return Err(MctsError::NoLegalActions);
            }
            let choice = g.get_rollout_choice();
            let choice = self.intercept_rollout_choice(node, &mut g, choice);
            g.apply_choice(choice);
            fuel = fuel - 1;
            done = g.is_terminal() || g.heuristic_early_terminate();
        }
        Ok(g)
    }

    /// Interception hook for playout actions; may substitute another action
    /// but leaves the statistics node as it found it.
    fn intercept_rollout_choice(
        &mut self,
        node: &mut MonteCarloTreeNode,
        game: &mut Self::Game,
        choice: u64,
    ) -> (r: u64)
        ensures
            *final(node) == *old(node),
    {
        let _ = game;
        choice
    }

    /// Backpropagation at one node: fold the outcome's reward, taken from the
    /// node's own owner's perspective, into the running totals.
    fn record_outcome(&mut self, node: &mut MonteCarloTreeNode, game: &Self::Game)
        requires
            game.terminal() || game.early_terminate(),
            old(node).games < MAX_GAMES,
            -((old(node).games as int) * (MAX_ABS_REWARD as int)) <= old(node).cumulative_reward as int <= (old(node).games as int) * (MAX_ABS_REWARD as int),
        ensures
            final(node).games == old(node).games + 1,
            final(node).cumulative_reward as int == old(node).cumulative_reward as int
                + game.reward(old(node).player_id),
            final(node).player_id == old(node).player_id,
            final(node).choice == old(node).choice,
            final(node).children == old(node).children,
            final(node).choice_availability_count == old(node).choice_availability_count,
            -((final(node).games as int) * (MAX_ABS_REWARD as int)) <= final(node).cumulative_reward as int <= (final(node).games as int) * (MAX_ABS_REWARD as int),
    {
        let reward = game.reward_for(node.player_id);
        proof {
            let g = old(node).games as int;
            assert((g + 1) * (MAX_ABS_REWARD as int) == g * (MAX_ABS_REWARD as int)
                + MAX_ABS_REWARD as int) by (nonlinear_arith);
            assert(g * (MAX_ABS_REWARD as int) <= 0x7FFF_FFFFint * 32768) by (nonlinear_arith)
                requires
                    g <= 0x7FFF_FFFF,
                    0 <= g,
            ;
        }
        node.cumulative_reward = node.cumulative_reward + reward;
        node.games = node.games + 1;
    }
}

/// The engine under its default policy: maximal first-play value and the
/// fixed-point upper-confidence rule with exploration constant 0.4, using
/// the root's own visit count at the root and the recorded availability
/// count of the child's action elsewhere.
pub struct VanillaMcts<G: Game> {
    phantom: core::marker::PhantomData<G>,
}

impl<G: Game> VanillaMcts<G> {
    pub fn new() -> (r: Self) {
        VanillaMcts { phantom: core::marker::PhantomData }
    }
}

impl<G: Game> MonteCarloTreeSearch for VanillaMcts<G> {
    type Game = G;

    open spec fn first_play_value_spec(
        &self,
        game: G,
        parent: MonteCarloTreeNode,
        child: MonteCarloTreeNode,
        choices: Option<Vec<u64>>,
    ) -> int {
        FIRST_PLAY_VALUE as int
    }

    open spec fn selection_value_spec(
        &self,
        game: G,
        parent: MonteCarloTreeNode,
        child: MonteCarloTreeNode,
    ) -> int {
        spec_ucb(
            child.cumulative_reward as int,
            child.games as int,
            (if parent.choice is None {
                parent.games
            } else {
                parent.spec_avail_count(child.choice.unwrap())
            }) as int,
            UCB_C_FP as int,
        )
    }

    fn iteration(&mut self, node: &mut MonteCarloTreeNode, game: G, fuel: u64) -> (r: Result<
        G,
        MctsError,
    >)
        decreases fuel,
    {
            if fuel == 0 {
                return Err(MctsError::DepthLimitExceeded);
            }
            let mut game = game;
            let ghost game0 = game;
            if game.is_terminal() {
                self.record_outcome(node, &game);
                return Ok(game);
            }
            let ghost pre = *node;
            let shuffle = game.shuffle_on_expand();
            let choices = node.expand(&game, shuffle);
            let ghost exp = *node;
            proof {
                if !(exp.choice is None && pre.children@.len() > 0) {
                } else {
                    assert(exp == pre);
                }
                assert(exp.select_ready());
                // With no legal action and no prior children, nothing is
                // selectable: the pass must report the misuse.
                if game.choices().len() == 0 && pre.children@.len() == 0 {
                    assert(exp.children@.len() == 0) by {
                        if exp.children@.len() > 0 {
                            assert(exp.children@[0].games == 0);
                            assert(game.choices().contains(exp.children@[0].choice.unwrap()));
                        }
                    }
                }
            }
            let bi = match self.select(node, &game, &choices) {
                Ok(b) => b,
                Err(e) => {
                    return Err(e);
                },
            };
            let mut child = node.children.remove(bi);
            let ghost chosen = child;
            self.after_selection(&game, &child);
            let cc = match child.choice {
                Option::Some(c) => c,
                Option::None => {
                    proof {
                        assert(false);
                    }
                    0
                },
            };
            game.apply_choice(cc);
            let res_game = if child.games == 0 {
                let g2 = match self.rollout(&mut child, game) {
                    Ok(g) => g,
                    Err(e) => {
                        node.children.insert(bi, child);
                        return Err(e);
                    },
                };
                self.record_outcome(&mut child, &g2);
                g2
            } else {
                match self.iteration(&mut child, game, fuel - 1) {
                    Ok(g) => g,
                    Err(e) => {
                        node.children.insert(bi, child);
                        return Err(e);
                    },
                }
            };
            node.children.insert(bi, child);
            proof {
                assert(node.children@ =~= exp.children@.update(bi as int, child));
            }
            self.record_outcome(node, &res_game);
            proof {
                assert(child.choice == chosen.choice);
                assert(one_visit_added(pre.children@, node.children@, bi as int)) by {
                    assert forall|i: int|
                        0 <= i < pre.children@.len() implies (#[trigger] node
                        .children@[i]).choice == pre.children@[i].choice by {
                        assert(exp.children@[i] == pre.children@[i]);
                        if i == bi as int {
                            assert(node.children@[i] == child);
                        }
                    }
                    assert forall|i: int|
                        0 <= i < pre.children@.len() && i != bi as int implies #[trigger] node
                        .children@[i] == pre.children@[i] by {
                        assert(exp.children@[i] == pre.children@[i]);
                    }
                    assert forall|i: int|
                        pre.children@.len() <= i < node.children@.len() && i != bi as int
                        implies (#[trigger] node.children@[i]).games == 0 by {
                        assert(node.children@[i] == exp.children@[i]);
                    }
                    if (bi as int) < pre.children@.len() {
                        assert(chosen == exp.children@[bi as int]);
                        assert(chosen.games == pre.children@[bi as int].games);
                    } else {
                        assert(chosen.games == 0);
                    }
                }
                // A first pass at the root materialized a child per action,
                // and the selected-child update keeps every action in place.
                if pre.choice is None && pre.children@.len() == 0 {
                    assert forall|c: u64| game0.choices().contains(c) implies node.has_child(
                        c,
                    ) by {
                        assert(exp.has_child(c));
                        let j = choose|j: int|
                            0 <= j < exp.children@.len() && exp.children@[j].choice == Some(c);
                        if j == bi as int {
                            assert(node.children@[j] == child);
                        }
                        assert(node.children@[j].choice == Some(c));
                    }
                }
                lemma_avail_same_table(*node, exp);
                assert(final(node).wf()) by {
                    assert(node.games == pre.games + 1);
                    assert forall|i: int| 0 <= i < node.children@.len() implies (#[trigger] node
                        .children@[i]).wf() && node.children@[i].games <= node.games && node
                        .children@[i].choice is Some by {
                        if i != bi as int {
                            assert(node.children@[i] == exp.children@[i]);
                            assert(exp.children@[i].wf());
                            assert(exp.children@[i].games <= exp.games);
                        } else {
                            assert(node.children@[i] == child);
                            assert(chosen.wf());
                            assert(chosen.games <= exp.games);
                            if chosen.games == 0 {
                                assert(child.games == 1);
                                assert(child.wf()) by {
                                    assert forall|k: int|
                                        0 <= k < child.children@.len() implies (#[trigger] child
                                            .children@[k]).games <= child.games && child
                                            .children@[k].wf() && child.children@[k].choice
                                            is Some by {
                                        assert(chosen.children@[k].games <= chosen.games);
                                        assert(chosen.children@[k].wf());
                                    }
                                    assert forall|k: int|
                                        0 <= k < child.choice_availability_count@.len()
                                            implies (#[trigger] child
                                            .choice_availability_count@[k]).1 <= child.games by {
                                        assert(chosen.choice_availability_count@[k].1 <= chosen.games);
                                    }
                                    assert forall|k: int|
                                        0 <= k < child.children@.len() implies child.has_avail(
                                            (#[trigger] child.children@[k]).choice.unwrap(),
                                        ) by {
                                        lemma_avail_same_table(child, chosen);
                                        assert(chosen.has_avail(chosen.children@[k].choice.unwrap()));
                                    }
                                }
                            }
                        }
                    }
                    assert forall|i: int, j: int|
                        0 <= i < j < node.children@.len() implies node.children@[i].choice
                            != node.children@[j].choice by {
                        assert(node.children@[i].choice == exp.children@[i].choice);
                        assert(node.children@[j].choice == exp.children@[j].choice);
                    }
                    assert forall|i: int| 0 <= i < node.children@.len() implies node.has_avail(
                        (#[trigger] node.children@[i]).choice.unwrap(),
                    ) by {
                        assert(node.children@[i].choice == exp.children@[i].choice);
                        assert(exp.has_avail(exp.children@[i].choice.unwrap()));
                    }
                    assert forall|i: int|
                        0 <= i < node.choice_availability_count@.len() implies (#[trigger] node
                            .choice_availability_count@[i]).1 <= node.games by {
                        assert(node.choice_availability_count@[i] == exp
                            .choice_availability_count@[i]);
                    }
                }
            }
            Ok(res_game)
        }

    fn get_first_play_value(
        &self,
        game: &G,
        parent: &MonteCarloTreeNode,
        child: &MonteCarloTreeNode,
        choices: &Option<Vec<u64>>,
    ) -> (r: i64) {
        FIRST_PLAY_VALUE
    }

    fn get_selection_value(
        &self,
        game: &G,
        parent: &MonteCarloTreeNode,
        child: &MonteCarloTreeNode,
    ) -> (r: i64) {
        let total: u64 = if parent.is_root() {
            parent.games
        } else {
            let c = match child.choice {
                Option::Some(c) => c,
                Option::None => {
                    proof {
                        let i = choose|i: int|
                            0 <= i < parent.children@.len() && parent.children@[i] == *child;
                        assert(parent.children@[i].choice is Some);
                        assert(false);
                    }
                    0
                },
            };
            parent.avail_count(c)
        };
        proof {
            let i = choose|i: int|
                0 <= i < parent.children@.len() && parent.children@[i] == *child;
            assert(parent.children@[i].wf());
            if !(parent.choice is None) && parent.has_avail(child.choice.unwrap()) {
                let j = choose|j: int|
                    0 <= j < parent.choice_availability_count@.len()
                        && parent.choice_availability_count@[j].0 == child.choice.unwrap();
                parent.lemma_avail_at(j);
            }
        }
        upper_confidence_bound(child.cumulative_reward, child.games, total, UCB_C_FP)
    }
}

/// First-play urgency: under the vanilla policy, the selection value of any
/// visited child lies strictly below the first-play value, so whenever some
/// available child is unvisited, the child that selection returns (an
/// available child of maximal selection value, here child `i`, compared
/// against the unvisited available child `j`) is itself unvisited.
pub proof fn lemma_first_play_urgency<G: Game>(
    policy: VanillaMcts<G>,
    game: G,
    node: MonteCarloTreeNode,
    choices: Option<Vec<u64>>,
    i: int,
    j: int,
)
    requires
        node.select_ready(),
        0 <= i < node.children@.len(),
        0 <= j < node.children@.len(),
        game.choice_available(node.children@[j].choice.unwrap()),
        node.children@[j].games == 0,
        game.choice_available(node.children@[i].choice.unwrap()),
        policy.first_play_value_spec(game, node, node.children@[j], choices) <= (
        if node.children@[i].games == 0 {
            policy.first_play_value_spec(game, node, node.children@[i], choices)
        } else {
            policy.selection_value_spec(game, node, node.children@[i])
        }),
    ensures
        node.children@[i].games == 0,
{
    if node.children@[i].games != 0 {
        let child = node.children@[i];
        assert(child.wf());
        let total = if node.choice is None {
            node.games
        } else {
            node.spec_avail_count(child.choice.unwrap())
        };
        assert(total <= MAX_GAMES) by {
            if !(node.choice is None) && node.has_avail(child.choice.unwrap()) {
                let k = choose|k: int|
                    0 <= k < node.choice_availability_count@.len()
                        && node.choice_availability_count@[k].0 == child.choice.unwrap();
                node.lemma_avail_at(k);
            }
        }
        lemma_ucb_in_range(
            child.cumulative_reward as int,
            child.games as int,
            total as int,
            UCB_C_FP as int,
        );
        assert(false);
    }
}

} // verus!
