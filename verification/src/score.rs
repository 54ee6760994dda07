//! Per-player reward bookkeeping. A [`GameScore`] maps player identities to
//! accumulated non-negative rewards; a player without an entry implicitly
//! holds zero. Adding two scores is a per-key sum with missing keys treated
//! as zero, so scores form a commutative monoid under [`GameScore::merge`].

use vstd::prelude::*;

verus! {

/// Whether `p` owns an entry of the key/value sequence.
pub open spec fn score_has_key(s: Seq<(u64, u64)>, p: u64) -> bool
    decreases s.len(),
{
    if s.len() == 0 {
        false
    } else {
        s[0].0 == p || score_has_key(s.drop_first(), p)
    }
}

/// The reward of `p` in the key/value sequence: the first entry with key
/// `p`, and zero when there is none.
pub open spec fn score_val(s: Seq<(u64, u64)>, p: u64) -> u64
    decreases s.len(),
{
    if s.len() == 0 {
        0
    } else if s[0].0 == p {
        s[0].1
    } else {
        score_val(s.drop_first(), p)
    }
}

/// The sum of all rewards in the key/value sequence.
pub open spec fn score_total(s: Seq<(u64, u64)>) -> int
    decreases s.len(),
{
    if s.len() == 0 {
        0
    } else {
        s[0].1 + score_total(s.drop_first())
    }
}

/// Whether no player owns two entries.
pub open spec fn score_keys_unique(s: Seq<(u64, u64)>) -> bool {
    forall|i: int, j: int| 0 <= i < j < s.len() ==> (#[trigger] s[i]).0 != (#[trigger] s[j]).0
}

/// `score_has_key` said with an index witness.
pub proof fn lemma_score_has_key_index(s: Seq<(u64, u64)>, p: u64)
    ensures
        score_has_key(s, p) <==> exists|k: int| 0 <= k < s.len() && (#[trigger] s[k]).0 == p,
    decreases s.len(),
{
    if s.len() > 0 {
        lemma_score_has_key_index(s.drop_first(), p);
        if s[0].0 == p {
            assert(s[0].0 == p && 0 <= 0 < s.len());
        } else if score_has_key(s.drop_first(), p) {
            let k = choose|k: int|
                0 <= k < s.drop_first().len() && (#[trigger] s.drop_first()[k]).0 == p;
            assert(s[k + 1].0 == p);
        } else {
            assert(forall|k: int|
                0 < k < s.len() ==> (#[trigger] s[k]) == s.drop_first()[k - 1]);
        }
    }
}

/// A reward is never negative and never exceeds the total.
pub proof fn lemma_score_val_le_total(s: Seq<(u64, u64)>, p: u64)
    ensures
        0 <= score_val(s, p) <= score_total(s),
    decreases s.len(),
{
    if s.len() > 0 {
        lemma_score_val_le_total(s.drop_first(), p);
    }
}

/// Appending an entry adds its value to the total; it changes the reward of
/// its own key only where that key was absent, and of no other key.
pub proof fn lemma_score_push(s: Seq<(u64, u64)>, e: (u64, u64))
    ensures
        score_total(s.push(e)) == score_total(s) + e.1,
        forall|p: u64| #[trigger]
            score_has_key(s.push(e), p) <==> (score_has_key(s, p) || e.0 == p),
        forall|p: u64| #[trigger] score_val(s.push(e), p) == if score_has_key(s, p) {
            score_val(s, p)
        } else if e.0 == p {
            e.1
        } else {
            0u64
        },
    decreases s.len(),
{
    if s.len() == 0 {
        assert(s.push(e)[0] == e);
        assert(s.push(e).drop_first() =~= s);
        assert forall|p: u64| #[trigger] score_val(s.push(e), p) == if score_has_key(s, p) {
            score_val(s, p)
        } else if e.0 == p {
            e.1
        } else {
            0u64
        } by {
            assert(score_val(s, p) == 0);
        }
    } else {
        lemma_score_push(s.drop_first(), e);
        assert(s.push(e)[0] == s[0]);
        assert(s.push(e).drop_first() =~= s.drop_first().push(e));
        assert forall|p: u64| #[trigger]
            score_has_key(s.push(e), p) <==> (score_has_key(s, p) || e.0 == p) by {
            assert(score_has_key(s.drop_first().push(e), p) <==> (score_has_key(
                s.drop_first(),
                p,
            ) || e.0 == p));
        }
        assert forall|p: u64| #[trigger] score_val(s.push(e), p) == if score_has_key(s, p) {
            score_val(s, p)
        } else if e.0 == p {
            e.1
        } else {
            0u64
        } by {
            assert(score_val(s.drop_first().push(e), p) == if score_has_key(s.drop_first(), p) {
                score_val(s.drop_first(), p)
            } else if e.0 == p {
                e.1
            } else {
                0u64
            });
        }
    }
}

/// Replacing the value of the entry at `i` (whose key has no earlier entry)
/// moves the total by the difference and the key's reward to the new value;
/// every other key keeps its reward.
pub proof fn lemma_score_update(s: Seq<(u64, u64)>, i: int, v2: u64)
    requires
        0 <= i < s.len(),
        forall|k: int| 0 <= k < i ==> (#[trigger] s[k]).0 != s[i].0,
    ensures
        score_total(s.update(i, (s[i].0, v2))) == score_total(s) - s[i].1 + v2,
        forall|p: u64| #[trigger]
            score_has_key(s.update(i, (s[i].0, v2)), p) <==> score_has_key(s, p),
        score_val(s.update(i, (s[i].0, v2)), s[i].0) == v2,
        forall|p: u64|
            p != s[i].0 ==> #[trigger] score_val(s.update(i, (s[i].0, v2)), p) == score_val(s, p),
    decreases i,
{
    let e = (s[i].0, v2);
    let u = s.update(i, e);
    if i == 0 {
        assert(u[0] == e);
        assert(u.drop_first() =~= s.drop_first());
    } else {
        assert(s.drop_first()[i - 1] == s[i]);
        assert(forall|k: int|
            0 <= k < i - 1 ==> (#[trigger] s.drop_first()[k]).0 == s[k + 1].0);
        lemma_score_update(s.drop_first(), i - 1, v2);
        let ud = s.drop_first().update(i - 1, e);
        assert(u.drop_first() =~= ud);
        assert(u[0] == s[0]);
        assert forall|p: u64| #[trigger] score_has_key(u, p) <==> score_has_key(s, p) by {
            assert(score_has_key(ud, p) <==> score_has_key(s.drop_first(), p));
        }
        assert(score_val(ud, s[i].0) == v2);
        assert(u[0].0 != s[i].0);
        assert(score_val(u, s[i].0) == v2);
        assert forall|p: u64|
            p != s[i].0 implies #[trigger] score_val(u, p) == score_val(s, p) by {
            assert(score_val(ud, p) == score_val(s.drop_first(), p));
        }
    }
}

/// The reward of `p` is the value at its first entry.
pub proof fn lemma_score_val_found(s: Seq<(u64, u64)>, i: int, p: u64)
    requires
        0 <= i < s.len(),
        s[i].0 == p,
        forall|k: int| 0 <= k < i ==> (#[trigger] s[k]).0 != p,
    ensures
        score_val(s, p) == s[i].1,
        score_has_key(s, p),
    decreases i,
{
    if i > 0 {
        assert(s.drop_first()[i - 1] == s[i]);
        assert(forall|k: int|
            0 <= k < i - 1 ==> (#[trigger] s.drop_first()[k]).0 == s[k + 1].0);
        lemma_score_val_found(s.drop_first(), i - 1, p);
    }
}

/// A player without an entry holds zero.
pub proof fn lemma_score_val_absent(s: Seq<(u64, u64)>, p: u64)
    requires
        forall|k: int| 0 <= k < s.len() ==> (#[trigger] s[k]).0 != p,
    ensures
        score_val(s, p) == 0,
        !score_has_key(s, p),
    decreases s.len(),
{
    if s.len() > 0 {
        assert(forall|k: int|
            0 <= k < s.drop_first().len() ==> (#[trigger] s.drop_first()[k]) == s[k + 1]);
        lemma_score_val_absent(s.drop_first(), p);
    }
}

/// A mapping from player identity to accumulated reward. Missing players
/// hold zero; rewards are non-negative integers.
pub struct GameScore {
    entries: Vec<(u64, u64)>,
}

impl View for GameScore {
    type V = Seq<(u64, u64)>;

    closed spec fn view(&self) -> Seq<(u64, u64)> {
        self.entries@
    }
}

impl GameScore {
    /// Whether no player owns two entries.
    pub open spec fn wf(&self) -> bool {
        score_keys_unique(self@)
    }

    /// The reward the score assigns to `p`; zero for a missing player.
    pub open spec fn spec_get(&self, p: u64) -> u64 {
        score_val(self@, p)
    }

    /// The sum of all players' rewards.
    pub open spec fn total(&self) -> int {
        score_total(self@)
    }

    /// The score that assigns zero to every player.
    pub fn new() -> (r: GameScore)
        ensures
            r.wf(),
            r@.len() == 0,
            r.total() == 0,
            forall|p: u64| #[trigger] r.spec_get(p) == 0 && !score_has_key(r@, p),
    {
        let r = GameScore { entries: Vec::new() };
        proof {
            assert forall|p: u64| #[trigger] r.spec_get(p) == 0 && !score_has_key(r@, p) by {
                lemma_score_val_absent(r@, p);
            }
        }
        r
    }

    /// The reward accumulated for `player`, zero when the player has none.
    pub fn get(&self, player: u64) -> (r: u64)
        ensures
            r == self.spec_get(player),
    {
        let n = self.entries.len();
        let mut i: usize = 0;
        while i < n
            invariant
                n == self@.len(),
                0 <= i <= n,
                forall|k: int| 0 <= k < i ==> (#[trigger] self@[k]).0 != player,
            decreases n - i,
        {
            if self.entries[i].0 == player {
                proof {
                    lemma_score_val_found(self@, i as int, player);
                }
                return self.entries[i].1;
            }
            i += 1;
        }
        proof {
            lemma_score_val_absent(self@, player);
        }
        0
    }

    /// Adds `value` to the reward accumulated for `player`, leaving every
    /// other player's reward unchanged.
    pub fn insert(&mut self, player: u64, value: u64)
        requires
            old(self).wf(),
            old(self).spec_get(player) + value <= u64::MAX,
        ensures
            final(self).wf(),
            final(self).spec_get(player) == old(self).spec_get(player) + value,
            forall|p: u64|
                p != player ==> #[trigger] final(self).spec_get(p) == old(self).spec_get(p),
            forall|p: u64| #[trigger]
                score_has_key(final(self)@, p) <==> (score_has_key(old(self)@, p) || p == player),
            final(self).total() == old(self).total() + value,
    {
        let ghost pre = self@;
        let n = self.entries.len();
        let mut i: usize = 0;
        while i < n
            invariant
                n == self@.len(),
                self@ == pre,
                pre == old(self)@,
                score_keys_unique(pre),
                score_val(pre, player) + value <= u64::MAX,
                0 <= i <= n,
                forall|k: int| 0 <= k < i ==> (#[trigger] self@[k]).0 != player,
            decreases n - i,
        {
            if self.entries[i].0 == player {
                proof {
                    lemma_score_val_found(pre, i as int, player);
                    lemma_score_val_le_total(pre, player);
                }
                let bumped = self.entries[i].1 + value;
                self.entries.set(i, (player, bumped));
                proof {
                    assert(self@ =~= pre.update(i as int, (player, bumped)));
                    lemma_score_update(pre, i as int, bumped);
                    assert forall|a: int, b: int|
                        0 <= a < b < self@.len() implies (#[trigger] self@[a]).0
                        != (#[trigger] self@[b]).0 by {
                        assert(self@[a].0 == pre[a].0 && self@[b].0 == pre[b].0);
                    }
                }
                return ;
            }
            i += 1;
        }
        proof {
            lemma_score_val_absent(pre, player);
        }
        self.entries.push((player, value));
        proof {
            assert(self@ =~= pre.push((player, value)));
            lemma_score_push(pre, (player, value));
            lemma_score_has_key_index(pre, player);
            assert forall|p: u64|
                p != player implies #[trigger] score_val(self@, p) == score_val(pre, p) by {
                if !score_has_key(pre, p) {
                    lemma_score_has_key_index(pre, p);
                    lemma_score_val_absent(pre, p);
                }
            }
            assert forall|a: int, b: int|
                0 <= a < b < self@.len() implies (#[trigger] self@[a]).0
                != (#[trigger] self@[b]).0 by {
                if b < pre.len() {
                    assert(self@[a] == pre[a] && self@[b] == pre[b]);
                } else {
                    assert(self@[a] == pre[a] && self@[b] == (player, value));
                }
            }
        }
    }

    /// The per-key sum of two scores: every player's reward is the sum of
    /// the rewards the two operands assign, with missing keys read as zero.
    pub fn merge(&self, other: &GameScore) -> (r: GameScore)
        requires
            self.wf(),
            other.wf(),
            self.total() + other.total() <= u64::MAX,
        ensures
            r.wf(),
            forall|p: u64| #[trigger] r.spec_get(p) == self.spec_get(p) + other.spec_get(p),
            r.total() == self.total() + other.total(),
    {
        let mut out = GameScore { entries: Vec::new() };
        let n = self.entries.len();
        let mut i: usize = 0;
        proof {
            assert forall|p: u64| #[trigger] out.spec_get(p) == 0 && !score_has_key(out@, p) by {
                lemma_score_val_absent(out@, p);
            }
            assert(self@.take(0) =~= Seq::<(u64, u64)>::empty());
        }
        while i < n
            invariant
                n == self@.len(),
                0 <= i <= n,
                self.wf(),
                out.wf(),
                out@ == self@.take(i as int),
            decreases n - i,
        {
            let e = self.entries[i];
            proof {
                lemma_score_push(out@, e);
                assert(self@.take(i as int).push(e) =~= self@.take(i + 1));
                assert forall|a: int, b: int|
                    0 <= a < b < i + 1 implies (#[trigger] self@.take(i + 1)[a]).0
                    != (#[trigger] self@.take(i + 1)[b]).0 by {
                    assert(self@.take(i + 1)[a] == self@[a] && self@.take(i + 1)[b] == self@[b]);
                }
            }
            out.entries.push(e);
            proof {
                assert(out@ =~= self@.take(i + 1));
            }
            i += 1;
        }
        proof {
            assert(self@.take(n as int) =~= self@);
            lemma_take_is_whole(self@, other@);
            lemma_score_total_nonneg(self@);
        }
        let m = other.entries.len();
        let mut j: usize = 0;
        proof {
            assert(other@.take(0) =~= Seq::<(u64, u64)>::empty());
        }
        while j < m
            invariant
                m == other@.len(),
                0 <= j <= m,
                other.wf(),
                out.wf(),
                forall|p: u64| #[trigger] out.spec_get(p) == self.spec_get(p) + score_val(
                    other@.take(j as int),
                    p,
                ),
                out.total() == self.total() + score_total(other@.take(j as int)),
                score_total(other@.take(j as int)) + score_total(other@.skip(j as int))
                    == other.total(),
                self.total() + other.total() <= u64::MAX,
                self.total() >= 0,
            decreases m - j,
        {
            let (k, v) = other.entries[j];
            proof {
                lemma_score_prefix_step(other@, j as int);
                lemma_score_val_le_total(out@, k);
                lemma_score_val_le_total(other@.skip(j as int), k);
                assert(score_total(other@.skip(j as int)) >= v) by {
                    lemma_score_skip_head(other@, j as int);
                }
            }
            out.insert(k, v);
            proof {
                assert forall|p: u64| #[trigger] out.spec_get(p) == self.spec_get(p) + score_val(
                    other@.take(j + 1),
                    p,
                ) by {
                    lemma_score_take_push(other@, j as int, p);
                    if !score_has_key(other@.take(j as int), p) {
                        lemma_score_has_key_index(other@.take(j as int), p);
                        lemma_score_val_absent(other@.take(j as int), p);
                    }
                    if p == k && score_has_key(other@.take(j as int), k) {
                        lemma_score_has_key_index(other@.take(j as int), k);
                        let a = choose|a: int|
                            0 <= a < other@.take(j as int).len() && (#[trigger] other@.take(
                                j as int,
                            )[a]).0 == k;
                        assert((#[trigger] other@[a]).0 == (#[trigger] other@[j as int]).0);
                        assert(false);
                    }
                }
                assert(score_total(other@.take(j + 1)) == score_total(other@.take(j as int))
                    + v) by {
                    lemma_score_push(other@.take(j as int), other@[j as int]);
                    assert(other@.take(j as int).push(other@[j as int]) =~= other@.take(j + 1));
                }
                lemma_score_prefix_step(other@, j as int);
            }
            j += 1;
        }
        proof {
            assert(other@.take(m as int) =~= other@);
        }
        out
    }
}

/// Linking the totals of a prefix and the matching suffix to the whole.
proof fn lemma_score_prefix_step(s: Seq<(u64, u64)>, j: int)
    requires
        0 <= j < s.len(),
    ensures
        score_total(s.skip(j)) == s[j].1 + score_total(s.skip(j + 1)),
        score_total(s.take(j + 1)) == score_total(s.take(j)) + s[j].1,
{
    assert(s.skip(j).drop_first() =~= s.skip(j + 1));
    assert(s.skip(j)[0] == s[j]);
    lemma_score_push(s.take(j), s[j]);
    assert(s.take(j).push(s[j]) =~= s.take(j + 1));
}

/// The first entry of a suffix contributes to that suffix's total.
proof fn lemma_score_skip_head(s: Seq<(u64, u64)>, j: int)
    requires
        0 <= j < s.len(),
    ensures
        score_total(s.skip(j)) >= s[j].1,
        score_total(s.skip(j)) >= 0,
{
    assert(s.skip(j)[0] == s[j]);
    assert(s.skip(j).drop_first() =~= s.skip(j + 1));
    lemma_score_total_nonneg(s.skip(j + 1));
}

/// Totals are sums of non-negative values.
proof fn lemma_score_total_nonneg(s: Seq<(u64, u64)>)
    ensures
        score_total(s) >= 0,
    decreases s.len(),
{
    if s.len() > 0 {
        lemma_score_total_nonneg(s.drop_first());
    }
}

/// Reading one more entry of a prefix moves exactly that entry's key.
proof fn lemma_score_take_push(s: Seq<(u64, u64)>, j: int, p: u64)
    requires
        0 <= j < s.len(),
    ensures
        score_val(s.take(j + 1), p) == if score_has_key(s.take(j), p) {
            score_val(s.take(j), p)
        } else if s[j].0 == p {
            s[j].1
        } else {
            0u64
        },
        score_has_key(s.take(j + 1), p) <==> (score_has_key(s.take(j), p) || s[j].0 == p),
    decreases s.len(),
{
    lemma_score_push(s.take(j), s[j]);
    assert(s.take(j).push(s[j]) =~= s.take(j + 1));
}

/// A whole sequence is its own full prefix, with the empty suffix.
proof fn lemma_take_is_whole(s: Seq<(u64, u64)>, t: Seq<(u64, u64)>)
    ensures
        score_total(s.take(s.len() as int)) == score_total(s),
        score_total(t.take(0)) == 0,
        score_total(t.skip(0)) == score_total(t),
{
    assert(s.take(s.len() as int) =~= s);
    assert(t.take(0) =~= Seq::<(u64, u64)>::empty());
    assert(t.skip(0) =~= t);
}

} // verus!
