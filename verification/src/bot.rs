use vstd::prelude::*;

use crate::game::{Action, Game, GameModel};
use crate::rules::legal_actions;
use crate::scoring::score;
use crate::search::{lemma_visits_of, playout, playout_effect, reward_spec, searchable, Tree};
use crate::tally::{lemma_lookup_nonzero_nonempty, lookup, marked_once};

verus! {

/// The fixed playout budget a recommendation runs by default.
pub const MIN_PLAYOUTS: usize = 2048;

/// `r1 / v1 <= r2 / v2` for positive visit counts, stated without division.
pub open spec fn avg_le(v1: u64, r1: i64, v2: u64, r2: i64) -> bool {
    r1 * v2 <= r2 * v1
}

/// Comparison of averages by cross-multiplication is transitive for
/// positive visit counts.
proof fn lemma_avg_le_trans(v1: u64, r1: i64, v2: u64, r2: i64, v3: u64, r3: i64)
    requires
        v1 >= 1,
        v2 >= 1,
        v3 >= 1,
        avg_le(v1, r1, v2, r2),
        avg_le(v2, r2, v3, r3),
    ensures
        avg_le(v1, r1, v3, r3),
{
    assert((r1 as int) * (v3 as int) <= (r3 as int) * (v1 as int)) by (nonlinear_arith)
        requires
            (r1 as int) * (v2 as int) <= (r2 as int) * (v1 as int),
            (r2 as int) * (v3 as int) <= (r3 as int) * (v2 as int),
            v1 >= 1,
            v2 >= 1,
            v3 >= 1,
    ;
}

/// The search bot: it owns the tree and the current root board across real
/// game turns, and remembers which player it plays as.
pub struct MCTSBot {
    pub root: Game,
    pub me: usize,
    pub tree: Tree,
}

impl MCTSBot {
    /// The bot is fit to search: its root is a searchable board and its
    /// tree is well formed.
    pub open spec fn wf(self) -> bool {
        searchable(self.root@) && self.tree.wf()
    }

    /// A fresh bot for `root`, playing as `me`, with an empty tree.
    pub fn new(root: Game, me: usize) -> (b: MCTSBot)
        requires
            searchable(root@),
        ensures
            b.wf(),
            b.root@ == root@,
            b.me == me,
            b.tree.entries@.len() == 0,
    {
        MCTSBot { root, me, tree: Tree::new() }
    }

    /// Tell the bot about the new game state: every tree entry whose board
    /// has strictly more empty cells than the new root is discarded, every
    /// other one is kept, and the root is replaced.
    #[verifier::loop_isolation(false)]
    pub fn update(&mut self, game: Game)
        requires
            old(self).wf(),
            searchable(game@),
        ensures
            final (self).wf(),
            final (self).root@ == game@,
            final (self).me == old(self).me,
            forall|i: int|
                0 <= i < final (self).tree.entries@.len() ==> (#[trigger] final (
                self).tree.entries@[i]).0@.empty_count() <= game@.empty_count(),
            forall|m: GameModel|
                old(self).tree.contains_key(m) && m.empty_count() <= game@.empty_count() ==> final (
                self).tree.contains_key(m),
            forall|i: int|
                0 <= i < final (self).tree.entries@.len() ==> old(self).tree.contains_key(
                    (#[trigger] final (self).tree.entries@[i]).0@,
                ),
            forall|m: GameModel|
                old(self).tree.contains_key(m) && m.empty_count() <= game@.empty_count() ==> final (
                self).tree.visits_of(m) == old(self).tree.visits_of(m),
    {
        let target = game.empty_cells();
        let mut kept: Vec<(Game, crate::tally::ActionScores)> = Vec::new();
        loop
            invariant
                self.tree.wf(),
                self.me == old(self).me,
                self.root == old(self).root,
                forall|i: int|
                    0 <= i < kept@.len() ==> {
                        let (g, t) = #[trigger] kept@[i];
                        &&& searchable(g@)
                        &&& t.wf()
                        &&& t.available_actions@ == crate::rules::legal_actions(g@)
                        &&& g@.empty_count() <= game@.empty_count()
                    },
                forall|i: int, j: int|
                    0 <= i < j < kept@.len() ==> (#[trigger] kept@[i]).0@ != (
                    #[trigger] kept@[j]).0@,
                forall|i: int, j: int|
                    0 <= i < kept@.len() && 0 <= j < self.tree.entries@.len() ==> (
                    #[trigger] kept@[i]).0@ != (#[trigger] self.tree.entries@[j]).0@,
                forall|i: int|
                    0 <= i < kept@.len() ==> old(self).tree.contains_key(
                        (#[trigger] kept@[i]).0@,
                    ),
                self.tree.entries@.len() <= old(self).tree.entries@.len(),
                forall|i: int|
                    0 <= i < self.tree.entries@.len() ==> #[trigger] self.tree.entries@[i] == old(
                        self,
                    ).tree.entries@[i],
                forall|i: int|
                    0 <= i < kept@.len() ==> exists|j: int|
                        0 <= j < old(self).tree.entries@.len() && old(self).tree.entries@[j] == (
                        #[trigger] kept@[i]),
                forall|i: int|
                    0 <= i < self.tree.entries@.len() ==> old(self).tree.contains_key(
                        (#[trigger] self.tree.entries@[i]).0@,
                    ),
                forall|m: GameModel|
                    old(self).tree.contains_key(m) && m.empty_count() <= game@.empty_count() ==> (
                    self.tree.contains_key(m) || exists|i: int|
                        0 <= i < kept@.len() && (#[trigger] kept@[i]).0@ == m),
            decreases self.tree.entries@.len(),
        {
            let ghost pre = self.tree.entries@;
            let popped = self.tree.entries.pop();
            match popped {
                None => { break ; },
                Some(entry) => {
                    proof {
                        assert(entry == pre[pre.len() - 1]);
                        assert(entry == old(self).tree.entries@[pre.len() - 1]);
                    }
                    let keep = entry.0.empty_cells() <= target;
                    let ghost kept_pre = kept@;
                    if keep {
                        kept.push(entry);
                        proof {
                            assert(kept@[kept@.len() - 1] == old(self).tree.entries@[pre.len()
                                - 1]);
                        }
                    }
                    proof {
                        assert forall|m: GameModel|
                            old(self).tree.contains_key(m) && m.empty_count()
                                <= game@.empty_count() implies (self.tree.contains_key(m) || exists|
                            i: int,
                        |
                            0 <= i < kept@.len() && (#[trigger] kept@[i]).0@ == m) by {
                            if !self.tree.contains_key(m) {
                                if exists|i: int|
                                    0 <= i < kept_pre.len() && (#[trigger] kept_pre[i]).0@ == m {
                                    let w = choose|i: int|
                                        0 <= i < kept_pre.len() && (#[trigger] kept_pre[i]).0@
                                            == m;
                                    assert(kept@[w].0@ == m);
                                } else {
                                    if pre[pre.len() - 1].0@ == m {
                                        assert(keep);
                                        assert(kept@[kept@.len() - 1].0@ == m);
                                    } else {
                                        let w = choose|i: int|
                                            0 <= i < pre.len() && (#[trigger] pre[i]).0@ == m;
                                        assert(self.tree.entries@[w] == pre[w]);
                                    }
                                }
                            }
                        }
                    }
                },
            }
        }
        let ghost kept_seq = kept@;
        self.tree.entries = kept;
        self.root = game;
        proof {
            assert(self.tree.wf());
            assert forall|m: GameModel|
                old(self).tree.contains_key(m) && m.empty_count()
                    <= game@.empty_count() implies self.tree.visits_of(m) == old(
                self,
            ).tree.visits_of(m) by {
                let w = choose|i: int| 0 <= i < kept_seq.len() && (#[trigger] kept_seq[i]).0@ == m;
                assert(self.tree.entries@[w] == kept_seq[w]);
                let j = choose|j: int|
                    0 <= j < old(self).tree.entries@.len() && old(self).tree.entries@[j]
                        == kept_seq[w];
                lemma_visits_of(old(self).tree, j);
                lemma_visits_of(self.tree, w);
            }
        }
    }

    /// Run one playout from the current root against the owned tree: it
    /// behaves exactly as the free [`playout`] on that root and tree — a
    /// no-op on a finished root, else at most one new node, every key kept,
    /// the root present with at least one recorded visit, and the statistics
    /// changed as [`playout_effect`] states.
    pub fn playout(&mut self)
        requires
            old(self).wf(),
        ensures
            final (self).wf(),
            final (self).root == old(self).root,
            final (self).me == old(self).me,
            old(self).root@.finished() ==> final (self).tree == old(self).tree,
            forall|m: GameModel|
                old(self).tree.contains_key(m) ==> final (self).tree.contains_key(m),
            !old(self).root@.finished() ==> final (self).tree.contains_key(old(self).root@),
            old(self).tree.entries@.len() <= final (self).tree.entries@.len() <= old(
                self,
            ).tree.entries@.len() + 1,
            !old(self).root@.finished() ==> exists|f: GameModel|
                #[trigger] playout_effect(
                    old(self).tree,
                    final (self).tree,
                    old(self).root@,
                    f,
                ),
            !old(self).root@.finished() ==> final (self).tree.visits_of(old(self).root@).len()
                > 0,
    {
        playout(&self.root, &mut self.tree);
        proof {
            if !old(self).root@.finished() {
                let f = choose|f: GameModel|
                    #[trigger] playout_effect(old(self).tree, self.tree, old(self).root@, f);
                let a = choose|a: Action|
                    legal_actions(old(self).root@).contains(a) && marked_once(
                        old(self).tree.visits_of(old(self).root@),
                        self.tree.visits_of(old(self).root@),
                        a,
                        reward_spec(
                            score(f, 0) as int,
                            score(f, 1) as int,
                            old(self).root@.active as int,
                        ),
                    );
                assert(lookup(self.tree.visits_of(old(self).root@), a).0 >= 1);
                lemma_lookup_nonzero_nonempty(self.tree.visits_of(old(self).root@), a);
            }
        }
    }

    /// Run `n` playouts from the current root. Every board the tree knew
    /// stays in it, and after at least one playout on an unfinished root the
    /// root's entry carries recorded visits.
    #[verifier::loop_isolation(false)]
    pub fn run_playouts(&mut self, n: usize)
        requires
            old(self).wf(),
        ensures
            final (self).wf(),
            final (self).root == old(self).root,
            final (self).me == old(self).me,
            forall|m: GameModel|
                old(self).tree.contains_key(m) ==> final (self).tree.contains_key(m),
            n >= 1 && !old(self).root@.finished() ==> final (self).tree.contains_key(
                old(self).root@,
            ) && final (self).tree.visits_of(old(self).root@).len() > 0,
    {
        let mut i: usize = 0;
        while i < n
            invariant
                i <= n,
                self.wf(),
                self.root == old(self).root,
                self.me == old(self).me,
                forall|m: GameModel|
                    old(self).tree.contains_key(m) ==> self.tree.contains_key(m),
                i >= 1 && !old(self).root@.finished() ==> self.tree.contains_key(old(self).root@)
                    && self.tree.visits_of(old(self).root@).len() > 0,
            decreases n - i,
        {
            self.playout();
            i = i + 1;
        }
    }

    /// The recommendation after searching: among the root actions with at
    /// least one recorded visit, one maximizing the average reward
    /// (cumulative reward over visit count), together with its record. None
    /// on a finished game, an unseen root, or a root without visits. Ties
    /// keep the earliest recorded action.
    #[verifier::loop_isolation(false)]
    pub fn get_best_action(&self) -> (r: Option<(Action, (u64, i64))>)
        requires
            self.wf(),
        ensures
            self.root@.finished() ==> r is None,
            !self.tree.contains_key(self.root@) ==> r is None,
            r matches Some(best) ==> !self.root@.finished() && exists|i: int|
                {
                    &&& 0 <= i < self.tree.entries@.len()
                    &&& (#[trigger] self.tree.entries@[i]).0@ == self.root@
                    &&& self.tree.entries@[i].1.visits@.contains(best)
                    &&& best.1.0 >= 1
                    &&& forall|k: int|
                        0 <= k < self.tree.entries@[i].1.visits@.len() ==> avg_le(
                            (#[trigger] self.tree.entries@[i].1.visits@[k]).1.0,
                            self.tree.entries@[i].1.visits@[k].1.1,
                            best.1.0,
                            best.1.1,
                        )
                },
            r is None ==> self.root@.finished() || !self.tree.contains_key(self.root@) || (forall|
                i: int,
            |
                0 <= i < self.tree.entries@.len() && (#[trigger] self.tree.entries@[i]).0@
                    == self.root@ ==> self.tree.entries@[i].1.visits@.len() == 0),
    {
        if self.root.is_finished() {
            return None;
        }
        let found = self.tree.find(&self.root);
        match found {
            None => None,
            Some(i) => {
                let n = self.tree.entries[i].1.visits.len();
                if n == 0 {
                    proof {
                        assert forall|j: int|
                            0 <= j < self.tree.entries@.len() && (
                            #[trigger] self.tree.entries@[j]).0@ == self.root@ implies self.tree.entries@[j].1.visits@.len()
                            == 0 by {
                            if j != i {
                                assert(self.tree.entries@[j].0@ != self.tree.entries@[i as int].0@);
                            }
                        }
                    }
                    return None;
                }
                let mut bi: usize = 0;
                let mut k: usize = 1;
                while k < n
                    invariant
                        bi < k <= n,
                        n == self.tree.entries@[i as int].1.visits@.len(),
                        forall|j: int|
                            0 <= j < k ==> avg_le(
                                (#[trigger] self.tree.entries@[i as int].1.visits@[j]).1.0,
                                self.tree.entries@[i as int].1.visits@[j].1.1,
                                self.tree.entries@[i as int].1.visits@[bi as int].1.0,
                                self.tree.entries@[i as int].1.visits@[bi as int].1.1,
                            ),
                    decreases n - k,
                {
                    let ghost vs = self.tree.entries@[i as int].1.visits@;
                    let ghost obi = bi as int;
                    let (_, (v, rw)) = self.tree.entries[i].1.visits[k];
                    let (_, (bv, brw)) = self.tree.entries[i].1.visits[bi];
                    proof {
                        assert(vs[k as int].1 == (v, rw));
                        assert(vs[obi].1 == (bv, brw));
                        assert((rw as int) * (bv as int) <= 0x7fffffffffffffff
                            * 0x7fffffffffffffff && (rw as int) * (bv as int) >= -(
                        0x7fffffffffffffff * 0x7fffffffffffffff)) by (nonlinear_arith)
                            requires
                                -0x7fffffffffffffff <= rw as int <= 0x7fffffffffffffff,
                                0 <= bv as int <= 0x7fffffffffffffff,
                        ;
                        assert((brw as int) * (v as int) <= 0x7fffffffffffffff * 0x7fffffffffffffff
                            && (brw as int) * (v as int) >= -(0x7fffffffffffffff
                            * 0x7fffffffffffffff)) by (nonlinear_arith)
                            requires
                                -0x7fffffffffffffff <= brw as int <= 0x7fffffffffffffff,
                                0 <= v as int <= 0x7fffffffffffffff,
                        ;
                    }
                    if (rw as i128) * (bv as i128) > (brw as i128) * (v as i128) {
                        bi = k;
                    }
                    proof {
                        assert forall|j: int| 0 <= j <= k as int implies avg_le(
                            (#[trigger] vs[j]).1.0,
                            vs[j].1.1,
                            vs[bi as int].1.0,
                            vs[bi as int].1.1,
                        ) by {
                            if bi as int == obi {
                                if j == k as int {
                                    assert(avg_le(v, rw, bv, brw));
                                }
                            } else {
                                if j < k as int {
                                    assert(avg_le(vs[j].1.0, vs[j].1.1, bv, brw));
                                    assert(avg_le(bv, brw, v, rw));
                                    lemma_avg_le_trans(
                                        vs[j].1.0,
                                        vs[j].1.1,
                                        bv,
                                        brw,
                                        v,
                                        rw,
                                    );
                                }
                            }
                        }
                    }
                    k = k + 1;
                }
                let best = self.tree.entries[i].1.visits[bi];
                proof {
                    let vs = self.tree.entries@[i as int].1.visits@;
                    assert(vs[bi as int] == best);
                    assert(vs.contains(best));
                    assert(best.1.0 >= 1);
                }
                Some(best)
            },
        }
    }

    /// Run `playouts` playouts, then recommend. The budget is the caller's
    /// quality/latency knob; `MIN_PLAYOUTS` is the default. No
    /// recommendation comes back on a finished game; on an unfinished game
    /// any positive budget guarantees one, and it satisfies exactly what
    /// `get_best_action` promises: a recorded root action of maximal average
    /// reward together with its record.
    pub fn recommend(&mut self, playouts: usize) -> (r: Option<(Action, (u64, i64))>)
        requires
            old(self).wf(),
        ensures
            final (self).wf(),
            final (self).root == old(self).root,
            final (self).me == old(self).me,
            old(self).root@.finished() ==> r is None,
            !old(self).root@.finished() && playouts >= 1 ==> r is Some,
            r matches Some(best) ==> !final (self).root@.finished() && exists|i: int|
                {
                    &&& 0 <= i < final (self).tree.entries@.len()
                    &&& (#[trigger] final (self).tree.entries@[i]).0@ == final (self).root@
                    &&& final (self).tree.entries@[i].1.visits@.contains(best)
                    &&& best.1.0 >= 1
                    &&& forall|k: int|
                        0 <= k < final (self).tree.entries@[i].1.visits@.len() ==> avg_le(
                            (#[trigger] final (self).tree.entries@[i].1.visits@[k]).1.0,
                            final (self).tree.entries@[i].1.visits@[k].1.1,
                            best.1.0,
                            best.1.1,
                        )
                },
            r is None ==> final (self).root@.finished() || !final (self).tree.contains_key(
                final (self).root@,
            ) || (forall|i: int|
                0 <= i < final (self).tree.entries@.len() && (#[trigger] final (
                self).tree.entries@[i]).0@ == final (self).root@ ==> final (
                self).tree.entries@[i].1.visits@.len() == 0),
    {
        self.run_playouts(playouts);
        let r = self.get_best_action();
        proof {
            if !old(self).root@.finished() && playouts >= 1 && r is None {
                // the root's entry holds recorded visits, so the
                // recommendation cannot have come back empty
                assert(self.tree.contains_key(self.root@));
                let j = self.tree.key_index(self.root@);
                assert(0 <= j < self.tree.entries@.len() && self.tree.entries@[j].0@
                    == self.root@);
                assert(self.tree.entries@[j].1.visits@ == self.tree.visits_of(self.root@));
                assert(self.tree.entries@[j].1.visits@.len() > 0);
                assert(false);
            }
        }
        r
    }
}

} // verus!
