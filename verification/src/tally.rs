use vstd::prelude::*;

use crate::game::{Action, Game};
use crate::rules::legal_actions;

verus! {

/// The visit record of one action never visited.
pub open spec fn no_visit() -> (u64, i64) {
    (0u64, 0i64)
}

/// First-match lookup in the association list of visit records: the pair
/// `(visit count, cumulative reward)` of `a`, or `(0, 0)` if absent.
pub open spec fn lookup(s: Seq<(Action, (u64, i64))>, a: Action) -> (u64, i64)
    decreases s.len(),
{
    if s.len() == 0 {
        no_visit()
    } else if s[0].0 == a {
        s[0].1
    } else {
        lookup(s.drop_first(), a)
    }
}

proof fn lemma_lookup_skip(s: Seq<(Action, (u64, i64))>, i: int, a: Action)
    requires
        0 <= i <= s.len(),
        forall|j: int| 0 <= j < i ==> (#[trigger] s[j]).0 != a,
    ensures
        lookup(s, a) == lookup(s.skip(i), a),
    decreases i,
{
    if i == 0 {
        assert(s.skip(0) =~= s);
    } else {
        lemma_lookup_skip(s, i - 1, a);
        assert(s.skip(i - 1).len() > 0);
        assert(s.skip(i - 1)[0] == s[i - 1]);
        assert(s.skip(i - 1).drop_first() =~= s.skip(i));
    }
}

/// A found entry with no earlier entry of the same key is what lookup returns.
pub proof fn lemma_lookup_found(s: Seq<(Action, (u64, i64))>, i: int)
    requires
        0 <= i < s.len(),
        forall|j: int| 0 <= j < i ==> (#[trigger] s[j]).0 != s[i].0,
    ensures
        lookup(s, s[i].0) == s[i].1,
{
    lemma_lookup_skip(s, i, s[i].0);
    assert(s.skip(i)[0] == s[i]);
}

/// A key under no entry at all looks up to the empty record.
pub proof fn lemma_lookup_absent(s: Seq<(Action, (u64, i64))>, a: Action)
    requires
        forall|j: int| 0 <= j < s.len() ==> (#[trigger] s[j]).0 != a,
    ensures
        lookup(s, a) == no_visit(),
{
    lemma_lookup_skip(s, s.len() as int, a);
    assert(s.skip(s.len() as int) =~= Seq::<(Action, (u64, i64))>::empty());
}

/// Updating the entry at `i` in place, keeping its key, changes the lookup of
/// no other key.
pub proof fn lemma_lookup_update(s: Seq<(Action, (u64, i64))>, i: int, val: (u64, i64), x: Action)
    requires
        0 <= i < s.len(),
        x != s[i].0,
    ensures
        lookup(s.update(i, (s[i].0, val)), x) == lookup(s, x),
    decreases i,
{
    let t = s.update(i, (s[i].0, val));
    if i == 0 {
        if s[0].0 == x {
        } else {
            assert(t.drop_first() =~= s.drop_first());
        }
    } else {
        if s[0].0 == x {
        } else {
            assert(t.drop_first() =~= s.drop_first().update(i - 1, (s.drop_first()[i - 1].0, val)));
            lemma_lookup_update(s.drop_first(), i - 1, val, x);
        }
    }
}

/// Appending an entry with a fresh key leaves every earlier key's lookup
/// unchanged, and the fresh key looks up to the appended record.
pub proof fn lemma_lookup_push(s: Seq<(Action, (u64, i64))>, p: (Action, (u64, i64)), x: Action)
    ensures
        x != p.0 ==> lookup(s.push(p), x) == lookup(s, x),
        (forall|j: int| 0 <= j < s.len() ==> (#[trigger] s[j]).0 != p.0) ==> lookup(s.push(p), p.0)
            == p.1,
    decreases s.len(),
{
    if s.len() == 0 {
        assert(s.push(p)[0] == p);
        if x != p.0 {
            assert(s.push(p).drop_first() =~= Seq::<(Action, (u64, i64))>::empty());
            assert(lookup(s.push(p).drop_first(), x) == no_visit());
            assert(lookup(s.push(p), x) == no_visit());
            assert(lookup(s, x) == no_visit());
        }
    } else {
        assert(s.push(p)[0] == s[0]);
        assert(s.push(p).drop_first() =~= s.drop_first().push(p));
        lemma_lookup_push(s.drop_first(), p, x);
        if x != p.0 {
            if s[0].0 == x {
                assert(lookup(s.push(p), x) == s[0].1);
                assert(lookup(s, x) == s[0].1);
            } else {
                assert(lookup(s.push(p), x) == lookup(s.push(p).drop_first(), x));
                assert(lookup(s, x) == lookup(s.drop_first(), x));
            }
        }
        if forall|j: int| 0 <= j < s.len() ==> (#[trigger] s[j]).0 != p.0 {
            assert forall|j: int| 0 <= j < s.drop_first().len() implies (#[trigger] s.drop_first()[j]).0
                != p.0 by {
                assert(s.drop_first()[j] == s[j + 1]);
            }
            assert(s[0].0 != p.0);
            assert(lookup(s.push(p), p.0) == lookup(s.drop_first().push(p), p.0));
        }
    }
}

/// The record sequences differ by exactly one recorded visit: `a`'s count
/// rises by one and the ternary reward `r` joins its sum (unchanged only at
/// the unreachable saturation cap), and every other action's record is
/// untouched.
pub open spec fn marked_once(
    pre: Seq<(Action, (u64, i64))>,
    post: Seq<(Action, (u64, i64))>,
    a: Action,
    r: int,
) -> bool {
    &&& -1 <= r <= 1
    &&& ({
        let (v, w) = lookup(pre, a);
        lookup(post, a) == (if v < i64::MAX as u64 {
            ((v + 1) as u64, (w + r) as i64)
        } else {
            (v, w)
        })
    })
    &&& forall|x: Action| x != a ==> lookup(post, x) == lookup(pre, x)
}

/// A key with a recorded visit can only be looked up in a non-empty table.
pub proof fn lemma_lookup_nonzero_nonempty(s: Seq<(Action, (u64, i64))>, a: Action)
    requires
        lookup(s, a).0 >= 1,
    ensures
        s.len() > 0,
{
    if s.len() == 0 {
        assert(lookup(s, a) == no_visit());
    }
}

/// What lookup returns obeys the record bounds that hold of every stored
/// entry: at most the saturation cap of visits, and a cumulative reward no
/// larger in magnitude than the visit count.
pub proof fn lemma_lookup_bounds(s: Seq<(Action, (u64, i64))>, a: Action)
    requires
        forall|i: int|
            0 <= i < s.len() ==> {
                let (v, r) = (#[trigger] s[i]).1;
                &&& 1 <= v <= i64::MAX as u64
                &&& -(v as int) <= r <= v as int
            },
    ensures
        ({
            let (v, r) = lookup(s, a);
            &&& v <= i64::MAX as u64
            &&& -(v as int) <= r <= v as int
        }),
    decreases s.len(),
{
    if s.len() == 0 {
    } else if s[0].0 == a {
        assert(s[0] == s[0]);
    } else {
        assert forall|i: int| 0 <= i < s.drop_first().len() implies {
            let (v, r) = (#[trigger] s.drop_first()[i]).1;
            &&& 1 <= v <= i64::MAX as u64
            &&& -(v as int) <= r <= v as int
        } by {
            assert(s.drop_first()[i] == s[i + 1]);
        }
        lemma_lookup_bounds(s.drop_first(), a);
    }
}

/// Per visited board: its per-action visit counts and cumulative ternary
/// rewards, plus the list of legal actions frozen when the node was first
/// created.
pub struct ActionScores {
    pub visits: Vec<(Action, (u64, i64))>,
    pub available_actions: Vec<Action>,
}

impl ActionScores {
    /// Well-formedness: keys are distinct, every stored record has at least
    /// one visit, its cumulative ternary reward is bounded by its count, and
    /// the count stays below the (astronomically unreachable) saturation cap.
    pub open spec fn wf(self) -> bool {
        &&& forall|i: int, j: int|
            0 <= i < j < self.visits@.len() ==> (#[trigger] self.visits@[i]).0 != (
            #[trigger] self.visits@[j]).0
        &&& forall|i: int|
            0 <= i < self.visits@.len() ==> {
                let (v, r) = (#[trigger] self.visits@[i]).1;
                &&& 1 <= v <= i64::MAX as u64
                &&& -(v as int) <= r <= v as int
            }
    }

    /// A new table for `game`: no visits yet, and the available actions
    /// frozen to exactly the legal actions of `game` now.
    pub fn new(game: &Game) -> (t: ActionScores)
        requires
            game@.wf(),
        ensures
            t.wf(),
            t.visits@.len() == 0,
            t.available_actions@ == legal_actions(game@),
    {
        ActionScores { visits: Vec::new(), available_actions: game.get_legal_actions() }
    }

    /// The `(visit count, cumulative reward)` recorded for `edge`, or
    /// `(0, 0)` if the action was never visited.
    #[verifier::loop_isolation(false)]
    pub fn get_visit(&self, edge: &Action) -> (r: (u64, i64))
        ensures
            r == lookup(self.visits@, *edge),
    {
        let n = self.visits.len();
        let mut i: usize = 0;
        while i < n
            invariant
                i <= n,
                forall|j: int| 0 <= j < i ==> (#[trigger] self.visits@[j]).0 != *edge,
            decreases n - i,
        {
            let (a, rec) = self.visits[i];
            if a == *edge {
                proof {
                    lemma_lookup_found(self.visits@, i as int);
                }
                return rec;
            }
            i = i + 1;
        }
        proof {
            lemma_lookup_absent(self.visits@, *edge);
        }
        (0, 0)
    }

    /// Record one visit of `edge` with the ternary reward `reward`: the
    /// count rises by one and the reward is added, starting from `(0, 0)`
    /// for an unseen action. At the saturation cap the record is left as it
    /// is (unreachable in practice: it would take over 9e18 visits).
    #[verifier::loop_isolation(false)]
    pub fn mark_visit(&mut self, edge: Action, reward: i64)
        requires
            old(self).wf(),
            -1 <= reward <= 1,
        ensures
            final (self).wf(),
            final (self).available_actions == old(self).available_actions,
            forall|x: Action|
                x != edge ==> lookup(final (self).visits@, x) == lookup(old(self).visits@, x),
            ({
                let (v, r) = lookup(old(self).visits@, edge);
                lookup(final (self).visits@, edge) == (if v < i64::MAX as u64 {
                    ((v + 1) as u64, (r + reward) as i64)
                } else {
                    (v, r)
                })
            }),
    {
        let n = self.visits.len();
        let mut i: usize = 0;
        while i < n
            invariant
                i <= n,
                *self == *old(self),
                n == self.visits@.len(),
                forall|j: int| 0 <= j < i ==> (#[trigger] self.visits@[j]).0 != edge,
            decreases n - i,
        {
            let (a, rec) = self.visits[i];
            if a == edge {
                proof {
                    lemma_lookup_found(self.visits@, i as int);
                }
                let (v, r) = rec;
                if v < i64::MAX as u64 {
                    self.visits.set(i, (edge, (v + 1, r + reward)));
                }
                proof {
                    if v < i64::MAX as u64 {
                        assert forall|x: Action| x != edge implies lookup(self.visits@, x) == lookup(
                            old(self).visits@,
                            x,
                        ) by {
                            lemma_lookup_update(
                                old(self).visits@,
                                i as int,
                                ((v + 1) as u64, (r + reward) as i64),
                                x,
                            );
                        }
                        lemma_lookup_found(self.visits@, i as int);
                    }
                }
                return ;
            }
            i = i + 1;
        }
        proof {
            lemma_lookup_absent(self.visits@, edge);
        }
        self.visits.push((edge, (1, reward)));
        proof {
            assert forall|x: Action| x != edge implies lookup(self.visits@, x) == lookup(
                old(self).visits@,
                x,
            ) by {
                lemma_lookup_push(old(self).visits@, (edge, (1, reward)), x);
            }
            lemma_lookup_push(old(self).visits@, (edge, (1, reward)), edge);
        }
    }
}

} // verus!
