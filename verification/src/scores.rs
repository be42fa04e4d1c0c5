//! Score assignments handed in by the host: a map from position keys to
//! fixed-point values taken from player 1's side, as the polling searches
//! consume them for priors and leaf values.
use vstd::prelude::*;

verus! {

/// The score-map key of a position: the truncated turn byte, then the
/// pieces, as `Game::key` produces it.
pub open spec fn key_of(turn: nat, pieces: Seq<u8>) -> Seq<u8> {
    seq![((turn % 256) as u8)] + pieces
}

/// A score assignment from position keys to fixed-point values.
pub struct ScoreMap {
    pub entries: Vec<(Vec<u8>, i64)>,
}

impl ScoreMap {
    /// Keys occur at most once.
    pub open spec fn wf(self) -> bool {
        forall|i: int, j: int| 0 <= i < j < self.entries@.len()
            ==> (#[trigger] self.entries@[i]).0@ != (#[trigger] self.entries@[j]).0@
    }

    pub open spec fn has_score(self, k: Seq<u8>) -> bool {
        exists|i: int| 0 <= i < self.entries@.len()
            && (#[trigger] self.entries@[i]).0@ == k
    }

    pub open spec fn score_at(self, k: Seq<u8>) -> i64 {
        self.entries@[choose|i: int| 0 <= i < self.entries@.len()
            && (#[trigger] self.entries@[i]).0@ == k].1
    }

    /// An empty assignment.
    pub fn new() -> (r: ScoreMap)
        ensures
            r.wf(),
            r.entries@.len() == 0,
    {
        ScoreMap { entries: Vec::new() }
    }

    /// The score stored under `key`, if any.
    pub fn get(&self, key: &Vec<u8>) -> (r: Option<i64>)
        requires
            self.wf(),
        ensures
            r.is_some() == self.has_score(key@),
            r matches Some(v) ==> v == self.score_at(key@),
    {
        let mut i: usize = 0;
        while i < self.entries.len()
            invariant
                self.wf(),
                i <= self.entries@.len(),
                forall|j: int| 0 <= j < i ==> (#[trigger] self.entries@[j]).0@ != key@,
            decreases self.entries@.len() - i,
        {
            if bytes_eq(&self.entries[i].0, key) {
                proof {
                    assert(self.entries@[i as int].0@ == key@);
                    let w = choose|w: int| 0 <= w < self.entries@.len()
                        && (#[trigger] self.entries@[w]).0@ == key@;
                    if w != i {
                        assert(self.entries@[w].0@ != self.entries@[i as int].0@);
                    }
                }
                return Some(self.entries[i].1);
            }
            i = i + 1;
        }
        proof {
            if self.has_score(key@) {
                let w = choose|w: int| 0 <= w < self.entries@.len()
                    && (#[trigger] self.entries@[w]).0@ == key@;
                assert(false);
            }
        }
        None
    }

    /// Stores `v` under `key`, replacing any earlier score; every other
    /// key keeps its value.
    pub fn insert(&mut self, key: Vec<u8>, v: i64)
        requires
            old(self).wf(),
        ensures
            final(self).wf(),
            final(self).has_score(key@),
            final(self).score_at(key@) == v,
            forall|k: Seq<u8>| #[trigger] final(self).has_score(k)
                <==> (old(self).has_score(k) || k == key@),
            forall|k: Seq<u8>| old(self).has_score(k) && k != key@
                ==> #[trigger] final(self).score_at(k) == old(self).score_at(k),
    {
        let mut i: usize = 0;
        let n = self.entries.len();
        while i < n
            invariant
                self.wf(),
                *self == *old(self),
                n == self.entries@.len(),
                i <= n,
                forall|j: int| 0 <= j < i ==> (#[trigger] self.entries@[j]).0@ != key@,
            decreases n - i,
        {
            if bytes_eq(&self.entries[i].0, &key) {
                let ghost pre = self.entries@;
                self.entries.set(i, (key, v));
                proof {
                    assert(self.entries@[i as int].0@ == pre[i as int].0@);
                    assert forall|p: int, q: int| 0 <= p < q < self.entries@.len()
                        implies (#[trigger] self.entries@[p]).0@
                            != (#[trigger] self.entries@[q]).0@ by {
                        assert(self.entries@[p].0@ == pre[p].0@);
                        assert(self.entries@[q].0@ == pre[q].0@);
                    };
                    assert(final(self).has_score(key@)) by {
                        assert(final(self).entries@[i as int].0@ == key@);
                    }
                    assert forall|k: Seq<u8>| #[trigger] final(self).has_score(k)
                        implies (old(self).has_score(k) || k == key@) by {
                        let w = choose|w: int| 0 <= w < final(self).entries@.len()
                            && (#[trigger] final(self).entries@[w]).0@ == k;
                        if w != i {
                            assert(old(self).entries@[w].0@ == k);
                        }
                    };
                    assert forall|k: Seq<u8>| old(self).has_score(k) || k == key@
                        implies #[trigger] final(self).has_score(k) by {
                        if k != key@ {
                            let w = choose|w: int| 0 <= w < old(self).entries@.len()
                                && (#[trigger] old(self).entries@[w]).0@ == k;
                            assert(final(self).entries@[w].0@ == k);
                        } else {
                            assert(final(self).entries@[i as int].0@ == k);
                        }
                    };
                    assert(final(self).score_at(key@) == v) by {
                        let w = choose|w: int| 0 <= w < final(self).entries@.len()
                            && (#[trigger] final(self).entries@[w]).0@ == key@;
                        if w != i {
                            assert(final(self).entries@[w].0@ == pre[w].0@);
                        }
                    }
                    assert forall|k: Seq<u8>| old(self).has_score(k) && k != key@
                        implies #[trigger] final(self).score_at(k)
                            == old(self).score_at(k) by {
                        let wo = choose|wo: int| 0 <= wo < old(self).entries@.len()
                            && (#[trigger] old(self).entries@[wo]).0@ == k;
                        assert(wo != i);
                        assert(final(self).entries@[wo].0@ == k);
                        let wn = choose|wn: int| 0 <= wn < final(self).entries@.len()
                            && (#[trigger] final(self).entries@[wn]).0@ == k;
                        if wn != wo {
                            if wn == i {
                                assert(final(self).entries@[wn].0@ == key@);
                            } else {
                                assert(final(self).entries@[wn].0@ == pre[wn].0@);
                                assert(pre[wn].0@ != pre[wo].0@);
                            }
                        }
                        assert(final(self).entries@[wn] == pre[wo]);
                    };
                }
                return;
            }
            i = i + 1;
        }
        let ghost pre = self.entries@;
        self.entries.push((key, v));
        proof {
            assert(self.entries@[pre.len() as int].0@ == key@);
            assert forall|p: int, q: int| 0 <= p < q < self.entries@.len()
                implies (#[trigger] self.entries@[p]).0@
                    != (#[trigger] self.entries@[q]).0@ by {
                if q < pre.len() {
                    assert(self.entries@[p].0@ == pre[p].0@);
                    assert(self.entries@[q].0@ == pre[q].0@);
                } else {
                    assert(self.entries@[p].0@ == pre[p].0@);
                    assert(self.entries@[q].0@ == key@);
                }
            };
            assert forall|k: Seq<u8>| #[trigger] final(self).has_score(k)
                implies (old(self).has_score(k) || k == key@) by {
                let w = choose|w: int| 0 <= w < final(self).entries@.len()
                    && (#[trigger] final(self).entries@[w]).0@ == k;
                if w < pre.len() {
                    assert(old(self).entries@[w].0@ == k);
                }
            };
            assert forall|k: Seq<u8>| old(self).has_score(k) || k == key@
                implies #[trigger] final(self).has_score(k) by {
                if k != key@ {
                    let w = choose|w: int| 0 <= w < old(self).entries@.len()
                        && (#[trigger] old(self).entries@[w]).0@ == k;
                    assert(final(self).entries@[w].0@ == k);
                } else {
                    assert(final(self).entries@[pre.len() as int].0@ == k);
                }
            };
            assert(final(self).score_at(key@) == v) by {
                let w = choose|w: int| 0 <= w < final(self).entries@.len()
                    && (#[trigger] final(self).entries@[w]).0@ == key@;
                if w < pre.len() {
                    assert(pre[w].0@ != key@);
                    assert(final(self).entries@[w].0@ == pre[w].0@);
                }
            }
            assert forall|k: Seq<u8>| old(self).has_score(k) && k != key@
                implies #[trigger] final(self).score_at(k)
                    == old(self).score_at(k) by {
                let wo = choose|wo: int| 0 <= wo < old(self).entries@.len()
                    && (#[trigger] old(self).entries@[wo]).0@ == k;
                assert(final(self).entries@[wo].0@ == k);
                let wn = choose|wn: int| 0 <= wn < final(self).entries@.len()
                    && (#[trigger] final(self).entries@[wn]).0@ == k;
                if wn != wo {
                    if wn == pre.len() {
                        assert(final(self).entries@[wn].0@ == key@);
                    } else {
                        assert(final(self).entries@[wn].0@ == pre[wn].0@);
                        assert(pre[wn].0@ != pre[wo].0@);
                    }
                }
                assert(final(self).entries@[wn] == pre[wo]);
            };
        }
    }
}

/// Byte equality of two vectors.
fn bytes_eq(a: &Vec<u8>, b: &Vec<u8>) -> (r: bool)
    ensures
        r == (a@ == b@),
{
    if a.len() != b.len() {
        proof {
            assert(a@ != b@);
        }
        return false;
    }
    let mut i: usize = 0;
    while i < a.len()
        invariant
            a@.len() == b@.len(),
            i <= a@.len(),
            forall|j: int| 0 <= j < i ==> a@[j] == b@[j],
        decreases a@.len() - i,
    {
        if a[i] != b[i] {
            proof {
                assert(a@[i as int] != b@[i as int]);
            }
            return false;
        }
        i = i + 1;
    }
    proof {
        assert(a@ =~= b@);
    }
    true
}


} // verus!
