//! An explicit, seedable source of pseudo-randomness (a xorshift generator),
//! and a shuffle built on it. Randomness only reorders work — which digit a
//! search branch tries first, which clue the generator visits next — so the
//! contracts state order-independent facts and a fixed seed replays a run.

use vstd::prelude::*;

verus! {

pub struct Rng {
    state: u64,
}

impl Rng {
    pub fn new(seed: u64) -> (r: Rng) {
        let state: u64 = if seed == 0 {
            0x9e3779b97f4a7c15
        } else {
            seed
        };
        Rng { state }
    }

    pub fn next_u64(&mut self) -> u64 {
        let mut x = self.state;
        x = x ^ (x << 13u64);
        x = x ^ (x >> 7u64);
        x = x ^ (x << 17u64);
        self.state = x;
        x
    }

    /// A pseudo-random index below `n`.
    pub fn below(&mut self, n: usize) -> (r: usize)
        requires
            n > 0,
        ensures
            r < n,
    {
        let x = self.next_u64();
        (x % (n as u64)) as usize
    }
}

/// Reorders `v` pseudo-randomly. Exactly the old elements come out, with
/// their multiplicities: the result and the input hold the same multiset.
pub fn shuffle<T>(v: Vec<T>, rng: &mut Rng) -> (r: Vec<T>)
    ensures
        r@.to_multiset() == v@.to_multiset(),
        r@.len() == v@.len(),
        forall|k: int| 0 <= k < r@.len() ==> v@.contains(#[trigger] r@[k]),
        forall|k: int| 0 <= k < v@.len() ==> r@.contains(#[trigger] v@[k]),
{
    let ghost orig = v@;
    let mut src = v;
    let mut out: Vec<T> = Vec::new();
    proof {
        broadcast use vstd::seq_lib::group_to_multiset_ensures;
        broadcast use vstd::multiset::group_multiset_axioms;

        assert forall|a: T|
            (out@.to_multiset().add(src@.to_multiset())).count(a) == orig.to_multiset().count(
                a,
            ) by {
            assert(!out@.contains(a));
            assert(out@.to_multiset().count(a) == 0);
        }
        assert(out@.to_multiset().add(src@.to_multiset()) =~= orig.to_multiset());
    }
    while src.len() > 0
        invariant
            out@.to_multiset().add(src@.to_multiset()) == orig.to_multiset(),
        decreases src.len(),
    {
        let ghost src_before = src@;
        let ghost out_before = out@;
        let idx = rng.below(src.len());
        let x = src.remove(idx);
        out.push(x);
        proof {
            broadcast use vstd::seq_lib::group_to_multiset_ensures;
            broadcast use vstd::multiset::group_multiset_axioms;

            assert(src_before.contains(x));
            assert(src_before.remove(idx as int).to_multiset() =~= src_before.to_multiset().remove(
                x,
            ));
            assert(out@.to_multiset() =~= out_before.to_multiset().insert(x));
            assert forall|a: T|
                (out@.to_multiset().add(src@.to_multiset())).count(a) == orig.to_multiset().count(
                    a,
                ) by {
                assert((out_before.to_multiset().add(src_before.to_multiset())).count(a)
                    == orig.to_multiset().count(a));
            }
            assert(out@.to_multiset().add(src@.to_multiset()) =~= orig.to_multiset());
        }
    }
    proof {
        broadcast use vstd::seq_lib::group_to_multiset_ensures;
        broadcast use vstd::multiset::group_multiset_axioms;

        assert forall|a: T| out@.to_multiset().count(a) == orig.to_multiset().count(a) by {
            assert(!src@.contains(a));
            assert(src@.to_multiset().count(a) == 0);
        }
        assert(out@.to_multiset() =~= orig.to_multiset());
        assert(out@.len() == out@.to_multiset().len());
        assert(orig.len() == orig.to_multiset().len());
        assert forall|k: int| 0 <= k < out@.len() implies orig.contains(#[trigger] out@[k]) by {
            assert(out@.contains(out@[k]));
            assert(out@.to_multiset().count(out@[k]) > 0);
        }
        assert forall|k: int| 0 <= k < orig.len() implies out@.contains(#[trigger] orig[k]) by {
            assert(orig.contains(orig[k]));
            assert(orig.to_multiset().count(orig[k]) > 0);
        }
    }
    out
}

} // verus!
