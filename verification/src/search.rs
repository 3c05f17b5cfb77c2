use vstd::prelude::*;

use crate::game::{Action, Game, GameModel};
use crate::rules::{lemma_enumerated_actions_legal, lemma_unfinished_has_actions, legal_actions};
use crate::scoring::score;
use crate::select::{choose_child, random_below};
use crate::tally::{marked_once, ActionScores};
use vstd::pervasive::unreached;

verus! {

/// Both players' scores stay within the machine word while being summed.
pub open spec fn scores_bound(m: GameModel) -> bool {
    (m.nrows * m.ncols) * (m.nrows + m.ncols) <= usize::MAX
}

/// A board is fit to take part in the search: dimensionally well formed,
/// every guess owned by player 0 or 1, and small enough to score.
pub open spec fn searchable(m: GameModel) -> bool {
    m.wf() && m.players_valid() && scores_bound(m)
}

/// The search tree: one statistics table per visited board, keyed by exact
/// board equality. The engine's sole mutable shared state.
pub struct Tree {
    pub entries: Vec<(Game, ActionScores)>,
}

impl Tree {
    /// Every key is a searchable board and occurs once; every table is well
    /// formed, and its frozen action list is exactly the legal actions of
    /// its key.
    pub open spec fn wf(self) -> bool {
        &&& forall|i: int|
            0 <= i < self.entries@.len() ==> {
                let (g, t) = #[trigger] self.entries@[i];
                &&& searchable(g@)
                &&& t.wf()
                &&& t.available_actions@ == legal_actions(g@)
            }
        &&& forall|i: int, j: int|
            0 <= i < j < self.entries@.len() ==> (#[trigger] self.entries@[i]).0@ != (
            #[trigger] self.entries@[j]).0@
    }

    /// Some entry's key equals the board `m`.
    pub open spec fn contains_key(self, m: GameModel) -> bool {
        exists|i: int| 0 <= i < self.entries@.len() && (#[trigger] self.entries@[i]).0@ == m
    }

    /// The index of the (unique, given `wf`) entry keyed by `m`.
    pub open spec fn key_index(self, m: GameModel) -> int {
        choose|j: int| 0 <= j < self.entries@.len() && (#[trigger] self.entries@[j]).0@ == m
    }

    /// The visit records the tree holds for the board `m`: those of its
    /// entry, or empty where there is none (a fresh entry also starts empty).
    pub open spec fn visits_of(self, m: GameModel) -> Seq<(Action, (u64, i64))> {
        if self.contains_key(m) {
            self.entries@[self.key_index(m)].1.visits@
        } else {
            Seq::empty()
        }
    }

    /// An empty tree.
    pub fn new() -> (t: Tree)
        ensures
            t.wf(),
            t.entries@.len() == 0,
    {
        Tree { entries: Vec::new() }
    }

    /// The index of the entry keyed by `g`, if one exists.
    #[verifier::loop_isolation(false)]
    pub fn find(&self, g: &Game) -> (r: Option<usize>)
        requires
            self.wf(),
            g@.wf(),
        ensures
            match r {
                Some(i) => i < self.entries@.len() && self.entries@[i as int].0@ == g@,
                None => !self.contains_key(g@),
            },
    {
        let n = self.entries.len();
        let mut i: usize = 0;
        while i < n
            invariant
                i <= n,
                forall|j: int| 0 <= j < i ==> (#[trigger] self.entries@[j]).0@ != g@,
            decreases n - i,
        {
            if self.entries[i].0.same_state(g) {
                return Some(i);
            }
            i = i + 1;
        }
        None
    }

    /// Record one visit of `edge` at the entry with index `i`: that entry's
    /// record of `edge` changes exactly as `ActionScores::mark_visit` states,
    /// every other record and every other entry is untouched, and no key
    /// enters or leaves the tree.
    pub fn mark_at(&mut self, i: usize, edge: Action, reward: i64)
        requires
            old(self).wf(),
            i < old(self).entries@.len(),
            -1 <= reward <= 1,
        ensures
            final (self).wf(),
            final (self).entries@.len() == old(self).entries@.len(),
            forall|m: GameModel| final (self).contains_key(m) == old(self).contains_key(m),
            marked_once(
                old(self).visits_of(old(self).entries@[i as int].0@),
                final (self).visits_of(old(self).entries@[i as int].0@),
                edge,
                reward as int,
            ),
            forall|m: GameModel|
                m != old(self).entries@[i as int].0@ ==> final (self).visits_of(m) == old(
                    self,
                ).visits_of(m),
    {
        let ghost pre = self.entries@;
        let ghost key = pre[i as int].0@;
        let mut entry = self.entries.remove(i);
        entry.1.mark_visit(edge, reward);
        self.entries.push(entry);
        proof {
            let post = self.entries@;
            assert(post.len() == pre.len());
            assert forall|k: int| 0 <= k < post.len() - 1 implies #[trigger] post[k] == (if k < i {
                pre[k]
            } else {
                pre[k + 1]
            }) by {
                assert(post[k] == pre.remove(i as int)[k]);
            }
            assert(post[post.len() - 1].0 == pre[i as int].0);
            assert forall|m: GameModel| final (self).contains_key(m) == old(self).contains_key(
                m,
            ) by {
                if old(self).contains_key(m) {
                    let w = choose|j: int| 0 <= j < pre.len() && (#[trigger] pre[j]).0@ == m;
                    if w == i {
                        assert(post[post.len() - 1].0@ == m);
                    } else if w < i {
                        assert(post[w].0@ == m);
                    } else {
                        assert(post[w - 1].0@ == m);
                    }
                }
                if final (self).contains_key(m) {
                    let w = choose|j: int| 0 <= j < post.len() && (#[trigger] post[j]).0@ == m;
                    if w == post.len() - 1 {
                        assert(pre[i as int].0@ == m);
                    } else if w < i {
                        assert(pre[w].0@ == m);
                    } else {
                        assert(pre[w + 1].0@ == m);
                    }
                }
            }
            lemma_visits_of(*old(self), i as int);
            lemma_visits_of(*self, post.len() - 1);
            assert(marked_once(
                old(self).visits_of(key),
                final (self).visits_of(key),
                edge,
                reward as int,
            ));
            assert forall|m: GameModel| m != key implies final (self).visits_of(m) == old(
                self,
            ).visits_of(m) by {
                if old(self).contains_key(m) {
                    let w = choose|j: int| 0 <= j < pre.len() && (#[trigger] pre[j]).0@ == m;
                    assert(w != i);
                    lemma_visits_of(*old(self), w);
                    if w < i {
                        lemma_visits_of(*self, w);
                    } else {
                        lemma_visits_of(*self, w - 1);
                    }
                }
            }
        }
    }
}

/// With unique keys, any entry keyed `m` is the entry `visits_of` reads.
pub proof fn lemma_visits_of(t: Tree, i: int)
    requires
        t.wf(),
        0 <= i < t.entries@.len(),
    ensures
        t.contains_key(t.entries@[i].0@),
        t.key_index(t.entries@[i].0@) == i,
        t.visits_of(t.entries@[i].0@) == t.entries@[i].1.visits@,
{
    let m = t.entries@[i].0@;
    assert(t.contains_key(m));
    let j = t.key_index(m);
    assert(0 <= j < t.entries@.len() && t.entries@[j].0@ == m);
    if j < i {
        assert(t.entries@[j].0@ != t.entries@[i].0@);
    } else if i < j {
        assert(t.entries@[i].0@ != t.entries@[j].0@);
    }
}

/// The ternary reward of a final position, seen from player `p`: `1` for a
/// win, `0` for a draw, `-1` for a loss.
pub open spec fn reward_spec(s0: int, s1: int, p: int) -> int {
    let own = if p == 0 {
        s0
    } else {
        s1
    };
    let other = if p == 0 {
        s1
    } else {
        s0
    };
    if own > other {
        1
    } else if own == other {
        0
    } else {
        -1
    }
}

/// Law: the reward seen from the player to move is `+1` exactly on a win,
/// `0` exactly on a draw, `-1` exactly on a loss, by that player's score
/// against the opponent's.
pub fn reward_for(scores: [usize; 2], p: usize) -> (r: i64)
    requires
        p < 2,
    ensures
        r == reward_spec(scores[0] as int, scores[1] as int, p as int),
        -1 <= r <= 1,
{
    let s0 = scores[0];
    let s1 = scores[1];
    let own = if p == 0 {
        s0
    } else {
        s1
    };
    let other = if p == 0 {
        s1
    } else {
        s0
    };
    if own > other {
        1
    } else if own == other {
        0
    } else {
        -1
    }
}

/// The statistics effect of one playout from an unfinished root, explained
/// by the finished terminal board `f` the rollout reached: the root's entry
/// records exactly one new visit of one of the root's legal actions,
/// rewarded by `f`'s scores as seen by the root's own active player, and
/// every board the tree already knew either keeps its records unchanged or
/// records exactly one visit of one of its own legal actions, rewarded from
/// its own active player.
pub open spec fn playout_effect(pre: Tree, post: Tree, root: GameModel, f: GameModel) -> bool {
    &&& f.finished()
    &&& f.nrows == root.nrows && f.ncols == root.ncols
    &&& exists|a: Action|
        legal_actions(root).contains(a) && marked_once(
            pre.visits_of(root),
            post.visits_of(root),
            a,
            reward_spec(score(f, 0) as int, score(f, 1) as int, root.active as int),
        )
    &&& forall|m: GameModel|
        pre.contains_key(m) && m != root ==> (post.visits_of(m) == pre.visits_of(m) || exists|
            a: Action,
        |
            legal_actions(m).contains(a) && marked_once(
                pre.visits_of(m),
                post.visits_of(m),
                a,
                reward_spec(score(f, 0) as int, score(f, 1) as int, m.active as int),
            ))
}

/// The recorded path is coherent: it starts at the root, its boards are
/// searchable with strictly falling empty counts down to the current node,
/// and each recorded action is one of its board's legal actions.
spec fn path_wf(path: Seq<(Game, Action)>, root: GameModel, node: GameModel) -> bool {
    &&& forall|t: int| 0 <= t < path.len() ==> searchable((#[trigger] path[t]).0@)
    &&& forall|t: int|
        0 <= t < path.len() ==> legal_actions((#[trigger] path[t]).0@).contains(path[t].1)
    &&& forall|t: int|
        0 <= t < path.len() - 1 ==> (#[trigger] path[t]).0@.empty_count() > path[t
            + 1].0@.empty_count()
    &&& path.len() > 0 ==> path[0].0@ == root
    &&& path.len() > 0 ==> path[path.len() - 1].0@.empty_count() > node.empty_count()
    &&& path.len() == 0 ==> node == root
}

/// Along a coherent path the empty counts fall strictly, so its boards are
/// pairwise distinct.
proof fn lemma_path_decreasing(path: Seq<(Game, Action)>, u: int, t: int)
    requires
        forall|k: int|
            0 <= k < path.len() - 1 ==> (#[trigger] path[k]).0@.empty_count() > path[k
                + 1].0@.empty_count(),
        0 <= u < t < path.len(),
    ensures
        path[u].0@.empty_count() > path[t].0@.empty_count(),
    decreases t - u,
{
    if u + 1 < t {
        lemma_path_decreasing(path, u + 1, t);
    }
}

/// One playout: walk the tree by the selection policy, add one node, roll
/// out uniformly at random to a finished board, then backpropagate each
/// path node's own-player reward. A no-op on a finished root; otherwise the
/// tree gains at most one node, keeps every board it had, holds the root,
/// and its statistics change exactly as [`playout_effect`] says for the
/// terminal board the rollout reached.
#[verifier::loop_isolation(false)]
#[verifier::rlimit(100)]
pub fn playout(root: &Game, tree: &mut Tree)
    requires
        searchable(root@),
        old(tree).wf(),
    ensures
        final (tree).wf(),
        root@.finished() ==> *final (tree) == *old(tree),
        forall|m: GameModel| old(tree).contains_key(m) ==> final (tree).contains_key(m),
        !root@.finished() ==> final (tree).contains_key(root@),
        old(tree).entries@.len() <= final (tree).entries@.len() <= old(tree).entries@.len() + 1,
        !root@.finished() ==> exists|f: GameModel|
            #[trigger] playout_effect(*old(tree), *final (tree), root@, f),
{
    if root.is_finished() {
        return ;
    }
    let mut path: Vec<(Game, Action)> = Vec::new();
    let mut node: Game = root.clone();
    // selection: descend while the node has a tree entry with actions left
    loop
        invariant
            searchable(node@),
            node@.nrows == root@.nrows,
            node@.ncols == root@.ncols,
            tree.wf(),
            *tree == *old(tree),
            node@ == root@ || tree.contains_key(root@),
            path_wf(path@, root@, node@),
        decreases node@.empty_count(),
    {
        let found = tree.find(&node);
        match found {
            None => { break ; },
            Some(i) => {
                if tree.entries[i].1.available_actions.len() == 0 {
                    break ;
                }
                let action = choose_child(&tree.entries[i].1, &tree.entries[i].1.available_actions);
                proof {
                    assert(tree.entries@[i as int].1.available_actions@ == legal_actions(node@));
                    lemma_enumerated_actions_legal(node@, action);
                }
                path.push((node.clone(), action));
                let res = node.place(action.row, action.col, action.cell);
                proof {
                    crate::rules::lemma_place_keeps_players_valid(
                        path@[path@.len() - 1].0@,
                        action.row as int,
                        action.col as int,
                        action.cell,
                    );
                    crate::rules::lemma_place_decreases_empty(
                        path@[path@.len() - 1].0@,
                        action.row as int,
                        action.col as int,
                        action.cell,
                    );
                }
                match res {
                    Ok(()) => {},
                    Err(_) => unreached(),
                }
            },
        }
    }
    // expansion: ensure the reached node has an entry
    match tree.find(&node) {
        Some(i) => {
            proof {
                assert(tree.entries@[i as int].0@ == node@);
            }
        },
        None => {
            let tally = ActionScores::new(&node);
            let cloned = node.clone();
            let ghost pre = tree.entries@;
            tree.entries.push((cloned, tally));
            proof {
                assert(tree.entries@[pre.len() as int].0@ == node@);
                assert forall|m2: GameModel| old(tree).contains_key(m2) implies tree.contains_key(
                    m2,
                ) by {
                    let j = choose|j: int| 0 <= j < pre.len() && (#[trigger] pre[j]).0@ == m2;
                    assert(tree.entries@[j] == pre[j]);
                }
            }
        },
    }
    let ghost texp = *tree;
    proof {
        assert(tree.contains_key(node@));
        assert(tree.contains_key(root@));
        // records in the expanded tree read as they did before: the only
        // possible new entry starts with no visits at all
        assert forall|m: GameModel| old(tree).contains_key(m) implies texp.visits_of(m) == old(
            tree,
        ).visits_of(m) by {
            let w = choose|j: int|
                0 <= j < old(tree).entries@.len() && (#[trigger] old(tree).entries@[j]).0@ == m;
            lemma_visits_of(*old(tree), w);
            assert(texp.entries@[w] == old(tree).entries@[w]);
            lemma_visits_of(texp, w);
        }
        if !old(tree).contains_key(root@) {
            assert(texp.entries@[texp.entries@.len() - 1].0@ == root@);
            lemma_visits_of(texp, texp.entries@.len() - 1);
            assert(texp.visits_of(root@) =~= Seq::<(Action, (u64, i64))>::empty());
        }
        assert(texp.visits_of(root@) == old(tree).visits_of(root@));
    }
    // rollout: play uniformly random legal actions until the board is full
    loop
        invariant
            searchable(node@),
            node@.nrows == root@.nrows,
            node@.ncols == root@.ncols,
            *tree == texp,
            tree.wf(),
            tree.contains_key(root@),
            path_wf(path@, root@, node@),
        decreases node@.empty_count(),
    {
        let moves = node.get_legal_actions();
        if moves.len() == 0 {
            break ;
        }
        let idx = random_below(moves.len() as u64) as usize;
        let action = moves[idx];
        proof {
            assert(legal_actions(node@)[idx as int] == action);
            assert(legal_actions(node@).contains(action));
            lemma_enumerated_actions_legal(node@, action);
        }
        path.push((node.clone(), action));
        let res = node.place(action.row, action.col, action.cell);
        proof {
            crate::rules::lemma_place_keeps_players_valid(
                path@[path@.len() - 1].0@,
                action.row as int,
                action.col as int,
                action.cell,
            );
            crate::rules::lemma_place_decreases_empty(
                path@[path@.len() - 1].0@,
                action.row as int,
                action.col as int,
                action.cell,
            );
        }
        match res {
            Ok(()) => {},
            Err(_) => unreached(),
        }
    }
    // the rollout can only stop on a finished board, which makes the path
    // non-empty: an unfinished root always offers a move
    let ghost fm = node@;
    proof {
        if !fm.finished() {
            lemma_unfinished_has_actions(fm);
            assert(false);
        }
        if path@.len() == 0 {
            assert(node@ == root@);
            assert(false);
        }
    }
    // backpropagation: each path node's own active player decides the sign
    let scores = node.get_scores();
    backpropagate(tree, &path, scores, Ghost(root@), Ghost(fm));
    proof {
        assert(texp.visits_of(root@) == old(tree).visits_of(root@));
        let ra = choose|a: Action|
            legal_actions(root@).contains(a) && marked_once(
                texp.visits_of(root@),
                tree.visits_of(root@),
                a,
                reward_spec(score(fm, 0) as int, score(fm, 1) as int, root@.active as int),
            );
        assert(legal_actions(root@).contains(ra) && marked_once(
            old(tree).visits_of(root@),
            tree.visits_of(root@),
            ra,
            reward_spec(score(fm, 0) as int, score(fm, 1) as int, root@.active as int),
        ));
        assert forall|m: GameModel| old(tree).contains_key(m) && m != root@ implies (
        tree.visits_of(m) == old(tree).visits_of(m) || exists|a: Action|
            legal_actions(m).contains(a) && marked_once(
                old(tree).visits_of(m),
                tree.visits_of(m),
                a,
                reward_spec(score(fm, 0) as int, score(fm, 1) as int, m.active as int),
            )) by {
            assert(texp.visits_of(m) == old(tree).visits_of(m));
            if tree.visits_of(m) != texp.visits_of(m) {
                let a1 = choose|a: Action|
                    legal_actions(m).contains(a) && marked_once(
                        texp.visits_of(m),
                        tree.visits_of(m),
                        a,
                        reward_spec(score(fm, 0) as int, score(fm, 1) as int, m.active as int),
                    );
                assert(legal_actions(m).contains(a1) && marked_once(
                    old(tree).visits_of(m),
                    tree.visits_of(m),
                    a1,
                    reward_spec(score(fm, 0) as int, score(fm, 1) as int, m.active as int),
                ));
            }
        }
        assert(playout_effect(*old(tree), *tree, root@, fm));
    }
}

/// The board at step `u` of the path carries, over the baseline `base`,
/// exactly one new visit of one of its legal actions, rewarded by the
/// terminal board `fm` from that board's own active player.
spec fn marked_at(base: Tree, cur: Tree, path: Seq<(Game, Action)>, u: int, fm: GameModel) -> bool {
    exists|a: Action|
        legal_actions(path[u].0@).contains(a) && marked_once(
            base.visits_of(path[u].0@),
            cur.visits_of(path[u].0@),
            a,
            reward_spec(score(fm, 0) as int, score(fm, 1) as int, path[u].0@.active as int),
        )
}

/// Every board the path does not reach within its first `t` steps still
/// carries its baseline records.
spec fn untouched_off_path(base: Tree, cur: Tree, path: Seq<(Game, Action)>, t: int) -> bool {
    forall|m: GameModel|
        #![trigger cur.visits_of(m)]
        (forall|u: int| 0 <= u < t ==> (#[trigger] path[u]).0@ != m) ==> cur.visits_of(m)
            == base.visits_of(m)
}

/// One backpropagation step: marking the (pairwise distinct) path board at
/// `t` extends the two bookkeeping facts from the first `t` steps to `t + 1`
/// — every processed board carries exactly one new own-player-rewarded
/// visit over the baseline `base`, every untouched board's records still
/// read as in `base`.
#[verifier::rlimit(100)]
#[verifier::spinoff_prover]
proof fn lemma_backprop_step(
    base: Tree,
    tpre: Tree,
    tpost: Tree,
    path: Seq<(Game, Action)>,
    t: int,
    fm: GameModel,
    edge: Action,
    r: int,
)
    requires
        0 <= t < path.len(),
        forall|k: int|
            0 <= k < path.len() - 1 ==> (#[trigger] path[k]).0@.empty_count() > path[k
                + 1].0@.empty_count(),
        legal_actions(path[t].0@).contains(edge),
        r == reward_spec(score(fm, 0) as int, score(fm, 1) as int, path[t].0@.active as int),
        marked_once(tpre.visits_of(path[t].0@), tpost.visits_of(path[t].0@), edge, r),
        forall|m: GameModel| m != path[t].0@ ==> tpost.visits_of(m) == tpre.visits_of(m),
        forall|u: int| 0 <= u < t ==> #[trigger] marked_at(base, tpre, path, u, fm),
        untouched_off_path(base, tpre, path, t),
    ensures
        forall|u: int| 0 <= u < t + 1 ==> #[trigger] marked_at(base, tpost, path, u, fm),
        untouched_off_path(base, tpost, path, t + 1),
{
    let key_t = path[t].0@;
    assert forall|u: int| 0 <= u < t implies (#[trigger] path[u]).0@ != key_t by {
        lemma_path_decreasing(path, u, t);
    }
    assert(tpre.visits_of(key_t) == base.visits_of(key_t));
    assert forall|u: int| 0 <= u < t + 1 implies #[trigger] marked_at(base, tpost, path, u, fm) by {
        if u < t {
            assert(marked_at(base, tpre, path, u, fm));
            let a0 = choose|a: Action|
                legal_actions(path[u].0@).contains(a) && marked_once(
                    base.visits_of(path[u].0@),
                    tpre.visits_of(path[u].0@),
                    a,
                    reward_spec(score(fm, 0) as int, score(fm, 1) as int, path[u].0@.active as int),
                );
            assert(path[u].0@ != key_t);
            assert(tpost.visits_of(path[u].0@) == tpre.visits_of(path[u].0@));
            assert(legal_actions(path[u].0@).contains(a0) && marked_once(
                base.visits_of(path[u].0@),
                tpost.visits_of(path[u].0@),
                a0,
                reward_spec(score(fm, 0) as int, score(fm, 1) as int, path[u].0@.active as int),
            ));
        } else {
            assert(u == t);
            assert(marked_once(base.visits_of(key_t), tpost.visits_of(key_t), edge, r));
            assert(legal_actions(path[u].0@).contains(edge) && marked_once(
                base.visits_of(path[u].0@),
                tpost.visits_of(path[u].0@),
                edge,
                reward_spec(score(fm, 0) as int, score(fm, 1) as int, path[u].0@.active as int),
            ));
        }
    }
    assert forall|m: GameModel|
        #![trigger tpost.visits_of(m)]
        (forall|u: int| 0 <= u < t + 1 ==> (#[trigger] path[u]).0@ != m) implies tpost.visits_of(m)
        == base.visits_of(m) by {
        assert(path[t].0@ != m);
        assert(tpost.visits_of(m) == tpre.visits_of(m));
        assert(tpre.visits_of(m) == base.visits_of(m));
    }
    assert(untouched_off_path(base, tpost, path, t + 1));
}

/// At the end of backpropagation the two bookkeeping facts yield the
/// function's promise: the root, the first path board, carries exactly one
/// new own-player-rewarded visit, and every other board is untouched or
/// carries one of its own.
#[verifier::rlimit(100)]
#[verifier::spinoff_prover]
proof fn lemma_backprop_finish(
    base: Tree,
    tpost: Tree,
    path: Seq<(Game, Action)>,
    t: int,
    fm: GameModel,
    rootm: GameModel,
)
    requires
        1 <= t <= path.len(),
        path[0].0@ == rootm,
        forall|u: int| 0 <= u < t ==> #[trigger] marked_at(base, tpost, path, u, fm),
        untouched_off_path(base, tpost, path, t),
    ensures
        exists|a: Action|
            legal_actions(rootm).contains(a) && marked_once(
                base.visits_of(rootm),
                tpost.visits_of(rootm),
                a,
                reward_spec(score(fm, 0) as int, score(fm, 1) as int, rootm.active as int),
            ),
        forall|m: GameModel|
            m != rootm ==> (tpost.visits_of(m) == base.visits_of(m) || exists|a: Action|
                legal_actions(m).contains(a) && marked_once(
                    base.visits_of(m),
                    tpost.visits_of(m),
                    a,
                    reward_spec(score(fm, 0) as int, score(fm, 1) as int, m.active as int),
                )),
{
    assert(marked_at(base, tpost, path, 0, fm));
    let ra = choose|a: Action|
        legal_actions(path[0].0@).contains(a) && marked_once(
            base.visits_of(path[0].0@),
            tpost.visits_of(path[0].0@),
            a,
            reward_spec(score(fm, 0) as int, score(fm, 1) as int, path[0].0@.active as int),
        );
    assert(legal_actions(rootm).contains(ra) && marked_once(
        base.visits_of(rootm),
        tpost.visits_of(rootm),
        ra,
        reward_spec(score(fm, 0) as int, score(fm, 1) as int, rootm.active as int),
    ));
    assert forall|m: GameModel| m != rootm implies (tpost.visits_of(m) == base.visits_of(m)
        || exists|a: Action|
        legal_actions(m).contains(a) && marked_once(
            base.visits_of(m),
            tpost.visits_of(m),
            a,
            reward_spec(score(fm, 0) as int, score(fm, 1) as int, m.active as int),
        )) by {
        if exists|u: int| 0 <= u < t && (#[trigger] path[u]).0@ == m {
            let u = choose|u: int| 0 <= u < t && (#[trigger] path[u]).0@ == m;
            assert(marked_at(base, tpost, path, u, fm));
            let a0 = choose|a: Action|
                legal_actions(path[u].0@).contains(a) && marked_once(
                    base.visits_of(path[u].0@),
                    tpost.visits_of(path[u].0@),
                    a,
                    reward_spec(score(fm, 0) as int, score(fm, 1) as int, path[u].0@.active as int),
                );
            assert(legal_actions(m).contains(a0) && marked_once(
                base.visits_of(m),
                tpost.visits_of(m),
                a0,
                reward_spec(score(fm, 0) as int, score(fm, 1) as int, m.active as int),
            ));
        } else {
            assert forall|u: int| 0 <= u < t implies (#[trigger] path[u]).0@ != m by {}
            assert(tpost.visits_of(m) == base.visits_of(m));
        }
    }
}

/// Walk the recorded path in forward order and record at each node's entry
/// one visit of its recorded action, rewarded by the terminal board `fm`
/// from that node's own active player; stop early at a node the tree does
/// not know. The first path node, the root, always has an entry and is
/// marked first.
#[verifier::rlimit(100)]
#[verifier::spinoff_prover]
fn backpropagate(
    tree: &mut Tree,
    path: &Vec<(Game, Action)>,
    scores: [usize; 2],
    Ghost(rootm): Ghost<GameModel>,
    Ghost(fm): Ghost<GameModel>,
)
    requires
        old(tree).wf(),
        old(tree).contains_key(rootm),
        path_wf(path@, rootm, fm),
        path@.len() > 0,
        scores[0] == score(fm, 0),
        scores[1] == score(fm, 1),
    ensures
        final (tree).wf(),
        final (tree).entries@.len() == old(tree).entries@.len(),
        forall|m: GameModel| final (tree).contains_key(m) == old(tree).contains_key(m),
        exists|a: Action|
            legal_actions(rootm).contains(a) && marked_once(
                old(tree).visits_of(rootm),
                final (tree).visits_of(rootm),
                a,
                reward_spec(score(fm, 0) as int, score(fm, 1) as int, rootm.active as int),
            ),
        forall|m: GameModel|
            m != rootm ==> (final (tree).visits_of(m) == old(tree).visits_of(m) || exists|
                a: Action,
            |
                legal_actions(m).contains(a) && marked_once(
                    old(tree).visits_of(m),
                    final (tree).visits_of(m),
                    a,
                    reward_spec(score(fm, 0) as int, score(fm, 1) as int, m.active as int),
                )),
{
    let n = path.len();
    // the root, the first path node, always has an entry: mark it first
    let pair0 = &path[0];
    let found0 = tree.find(&pair0.0);
    let i0: usize = match found0 {
        Some(i) => i,
        None => {
            proof {
                assert(path@[0].0@ == rootm);
            }
            unreached()
        },
    };
    let reward0 = reward_for(scores, pair0.0.active_player);
    let ghost t0 = *tree;
    tree.mark_at(i0, pair0.1, reward0);
    proof {
        assert(legal_actions(path@[0].0@).contains(pair0.1));
        assert(untouched_off_path(*old(tree), t0, path@, 0));
        lemma_backprop_step(*old(tree), t0, *tree, path@, 0, fm, pair0.1, reward0 as int);
    }
    let mut t: usize = 1;
    while t < n
        invariant
            1 <= t <= n,
            n == path@.len(),
            path_wf(path@, rootm, fm),
            scores[0] == score(fm, 0),
            scores[1] == score(fm, 1),
            tree.wf(),
            tree.entries@.len() == old(tree).entries@.len(),
            forall|m: GameModel| tree.contains_key(m) == old(tree).contains_key(m),
            forall|u: int| 0 <= u < t ==> #[trigger] marked_at(*old(tree), *tree, path@, u, fm),
            untouched_off_path(*old(tree), *tree, path@, t as int),
        decreases n - t,
    {
        proof {
            assert(searchable(path@[t as int].0@));
        }
        let pair = &path[t];
        let p = pair.0.active_player;
        let edge = pair.1;
        let found = tree.find(&pair.0);
        match found {
            Some(i) => {
                let reward = reward_for(scores, p);
                let ghost tpre = *tree;
                tree.mark_at(i, edge, reward);
                proof {
                    assert(legal_actions(path@[t as int].0@).contains(edge));
                    lemma_backprop_step(
                        *old(tree),
                        tpre,
                        *tree,
                        path@,
                        t as int,
                        fm,
                        edge,
                        reward as int,
                    );
                }
            },
            None => { break ; },
        }
        t = t + 1;
    }
    proof {
        lemma_backprop_finish(*old(tree), *tree, path@, t as int, fm, rootm);
    }
}

} // verus!
