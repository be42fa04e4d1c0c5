//! A small deterministic pseudo-random source, one per worker, and the
//! shuffle built on it.
use vstd::prelude::*;
use vstd::seq_lib::group_seq_properties;

verus! {

/// The xorshift generator's successor state.
pub open spec fn xorshift_step(x: u32) -> u32 {
    let a = x ^ (x << 13);
    let b = a ^ (a >> 17);
    b ^ (b << 5)
}

/// Exchanges the elements at positions `i < j`.
fn vec_swap<T>(x: &mut Vec<T>, i: usize, j: usize)
    requires
        i < j < old(x)@.len(),
    ensures
        final(x)@ == old(x)@.update(i as int, old(x)@[j as int])
            .update(j as int, old(x)@[i as int]),
{
    let ghost s = x@;
    let vj = x.remove(j);
    x.insert(i, vj);
    let vi = x.remove(i + 1);
    x.insert(j, vi);
    proof {
        let t = s.update(i as int, s[j as int]).update(j as int, s[i as int]);
        assert forall|k: int| 0 <= k < t.len() implies x@[k] == t[k] by {
            let s1 = s.remove(j as int);
            let s2 = s1.insert(i as int, s[j as int]);
            let s3 = s2.remove(i + 1);
            if k < i {
            } else if k == i {
            } else if k < j {
            } else if k == j {
            }
        };
        assert(x@ =~= t);
    }
}

/// A seeded xorshift pseudo-random generator.  Each worker owns one, so no
/// global state is shared between threads.
pub struct Rng {
    pub state: u32,
}

impl Rng {
    /// A generator with the given seed; a zero seed is replaced, since the
    /// all-zero state is a fixed point of the step.
    pub fn new(seed: u32) -> (r: Rng)
        ensures
            r.state == if seed == 0 { 39393u32 } else { seed },
    {
        if seed == 0 {
            Rng { state: 39393 }
        } else {
            Rng { state: seed }
        }
    }

    /// The next pseudo-random number.
    pub fn next_u32(&mut self) -> (r: u32)
        ensures
            final(self).state == xorshift_step(old(self).state),
            r == final(self).state,
    {
        let mut x = self.state;
        x = x ^ (x << 13);
        x = x ^ (x >> 17);
        x = x ^ (x << 5);
        self.state = x;
        x
    }

    /// A pseudo-random index below `bound`.
    pub fn below(&mut self, bound: usize) -> (r: usize)
        requires
            bound >= 1,
        ensures
            r < bound,
            final(self).state == xorshift_step(old(self).state),
    {
        let x = self.next_u32();
        (x as usize) % bound
    }
}

/// Rearranges `x` in place: afterwards it holds the same elements with the
/// same multiplicities, in a pseudo-random order.
pub fn random_shuffle<T>(rng: &mut Rng, x: &mut Vec<T>)
    ensures
        final(x)@.to_multiset() == old(x)@.to_multiset(),
        final(x)@.len() == old(x)@.len(),
{
    broadcast use group_seq_properties;
    if x.len() < 2 {
        return;
    }
    let mut i: usize = 0;
    while i < x.len() - 1
        invariant
            x@.len() == old(x)@.len(),
            x@.len() >= 2,
            i <= x@.len() - 1,
            x@.to_multiset() == old(x)@.to_multiset(),
        decreases x@.len() - i,
    {
        let j = rng.below(x.len() - i - 1);
        let ghost pre = x@;
        let a = i;
        let bidx = i + j + 1;
        vec_swap(x, a, bidx);
        proof {
            assert(x@ =~= pre.update(a as int, pre[bidx as int])
                .update(bidx as int, pre[a as int]));
            lemma_swap_multiset(pre, a as int, bidx as int);
        }
        i = i + 1;
    }
}

/// Swapping two positions keeps the multiset of elements.
proof fn lemma_swap_multiset<T>(s: Seq<T>, a: int, c: int)
    requires
        0 <= a < s.len(),
        0 <= c < s.len(),
        a != c,
    ensures
        s.update(a, s[c]).update(c, s[a]).to_multiset() == s.to_multiset(),
{
    broadcast use vstd::seq_lib::group_to_multiset_ensures;
    broadcast use vstd::seq_lib::to_multiset_update;
    broadcast use vstd::multiset::group_multiset_axioms;
    let t1 = s.update(a, s[c]);
    let t = t1.update(c, s[a]);
    assert(t1[c] == s[c]);
    assert(s.to_multiset().count(s[a]) > 0) by {
        assert(s.contains(s[a]));
    }
    assert(s.to_multiset().count(s[c]) > 0) by {
        assert(s.contains(s[c]));
    }
    assert(t1.to_multiset() == s.to_multiset().insert(s[c]).remove(s[a]));
    assert(t.to_multiset() == t1.to_multiset().insert(s[a]).remove(t1[c]));
    assert(t.to_multiset() =~= s.to_multiset());
}

} // verus!
