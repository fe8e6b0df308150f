//! The states that a walk has recorded: each once, in the order in which
//! they came, and found again by a fingerprint of their bits.

use crate::swap::XMatrix;
use std::collections::HashMap;
use vstd::prelude::*;

verus! {

/// The bits of each matrix of a sequence.
pub open spec fn views<const R: usize, const C: usize>(v: Seq<XMatrix<R, C>>) -> Seq<
    Seq<Seq<bool>>,
> {
    Seq::new(v.len(), |k: int| v[k]@)
}

/// Fingerprints are numbers below this prime, two to the power of 61 less
/// one.
pub const FINGERPRINT_MODULUS: u64 = 2305843009213693951;

/// The fingerprint `h` carried on over one more bit.
pub open spec fn mixed(h: u64, b: bool) -> u64 {
    ((h * 2 + if b {
        1int
    } else {
        0int
    }) % (FINGERPRINT_MODULUS as int)) as u64
}

/// The fingerprint `h` carried on over the first `n` bits of `row`.
pub open spec fn row_fingerprint(row: Seq<bool>, h: u64, n: int) -> u64
    decreases n,
{
    if n <= 0 {
        h
    } else {
        mixed(row_fingerprint(row, h, n - 1), row[n - 1])
    }
}

/// The fingerprint of the first `n` rows of `m`.
pub open spec fn fingerprint_upto(m: Seq<Seq<bool>>, n: int) -> u64
    decreases n,
{
    if n <= 0 {
        0
    } else {
        row_fingerprint(m[n - 1], fingerprint_upto(m, n - 1), m[n - 1].len() as int)
    }
}

/// The fingerprint of `m`: its bits, row after row, read as a binary
/// number modulo `FINGERPRINT_MODULUS`.
pub open spec fn fingerprint(m: Seq<Seq<bool>>) -> u64 {
    fingerprint_upto(m, m.len() as int)
}

/// Computes the fingerprint of `x`.
pub fn fingerprint_of<const R: usize, const C: usize>(x: &XMatrix<R, C>) -> (h: u64)
    ensures
        h == fingerprint(x@),
{
    let mut h: u64 = 0;
    let mut i: usize = 0;
    while i < R
        invariant
            i <= R,
            h < FINGERPRINT_MODULUS,
            h == fingerprint_upto(x@, i as int),
        decreases R - i,
    {
        let mut j: usize = 0;
        while j < C
            invariant
                i < R,
                j <= C,
                h < FINGERPRINT_MODULUS,
                h == row_fingerprint(x@[i as int], fingerprint_upto(x@, i as int), j as int),
            decreases C - j,
        {
            h = (h * 2 + x.get(i, j) as u64) % FINGERPRINT_MODULUS;
            j += 1;
        }
        i += 1;
    }
    h
}

/// A set of states. It keeps them in the order in which they were put in.
pub struct StateSet<const R: usize, const C: usize> {
    states: Vec<XMatrix<R, C>>,
    index: HashMap<u64, Vec<usize>>,
}

impl<const R: usize, const C: usize> View for StateSet<R, C> {
    type V = Seq<Seq<Seq<bool>>>;

    /// The bits of the states, in the order in which they were put in.
    closed spec fn view(&self) -> Seq<Seq<Seq<bool>>> {
        views(self.states@)
    }
}

impl<const R: usize, const C: usize> StateSet<R, C> {
    /// Whether the set is in order: every state is listed, by its place,
    /// under its fingerprint.
    pub closed spec fn wf(&self) -> bool {
        forall|j: int|
            0 <= j < self.states.len() ==> self.index@.contains_key(
                fingerprint(#[trigger] self.states[j]@),
            ) && self.index@[fingerprint(self.states[j]@)]@.contains(j as usize)
    }

    /// The empty set.
    pub fn new() -> (set: Self)
        ensures
            set.wf(),
            set@.len() == 0,
    {
        StateSet { states: Vec::new(), index: HashMap::new() }
    }

    /// The number of states.
    pub fn len(&self) -> (n: usize)
        ensures
            n == self@.len(),
    {
        self.states.len()
    }

    /// The states, in the order in which they were put in.
    pub fn states(&self) -> (states: &Vec<XMatrix<R, C>>)
        ensures
            views(states@) == self@,
    {
        &self.states
    }

    /// Whether `x` is in the set.
    pub fn contains(&self, x: &XMatrix<R, C>) -> (found: bool)
        requires
            self.wf(),
        ensures
            found == self@.contains(x@),
    {
        let k = fingerprint_of(x);
        match self.index.get(&k) {
            None => {
                assert forall|j: int| 0 <= j < self.states.len() implies self@[j] != x@ by {
                    assert(self.index@.contains_key(fingerprint(self.states[j]@)));
                }
                false
            },
            Some(bucket) => {
                let mut i: usize = 0;
                while i < bucket.len()
                    invariant
                        i <= bucket.len(),
                        forall|t: int|
                            0 <= t < i && bucket[t] < self.states.len() ==> self@[bucket[t] as int]
                                != x@,
                    decreases bucket.len() - i,
                {
                    let at = bucket[i];
                    if at < self.states.len() && self.states[at].same_as(x) {
                        assert(self@[at as int] == x@);
                        return true;
                    }
                    i += 1;
                }
                assert forall|j: int| 0 <= j < self.states.len() implies self@[j] != x@ by {
                    if self@[j] == x@ {
                        assert(self.index@[fingerprint(self.states[j]@)]@.contains(j as usize));
                        let t = choose|t: int| 0 <= t < bucket@.len() && bucket@[t] == j as usize;
                        assert(self@[bucket[t] as int] != x@);
                    }
                }
                false
            },
        }
    }

    /// Puts `x` into the set, unless it is there. Says whether it was put
    /// in.
    pub fn insert(&mut self, x: XMatrix<R, C>) -> (added: bool)
        requires
            old(self).wf(),
        ensures
            final(self).wf(),
            added == !old(self)@.contains(x@),
            final(self)@ == if added {
                old(self)@.push(x@)
            } else {
                old(self)@
            },
    {
        if self.contains(&x) {
            return false;
        }
        let k = fingerprint_of(&x);
        let at = self.states.len();
        let mut bucket: Vec<usize> = match self.index.get(&k) {
            Some(listed) => listed.clone(),
            None => Vec::new(),
        };
        let ghost listed = bucket@;
        bucket.push(at);
        assert forall|j: usize| listed.contains(j) implies bucket@.contains(j) by {
            let t = choose|t: int| 0 <= t < listed.len() && listed[t] == j;
            assert(bucket@[t] == j);
        }
        assert(bucket@[listed.len() as int] == at);
        self.index.insert(k, bucket);
        self.states.push(x);
        assert(self@ =~= old(self)@.push(x@));
        assert forall|j: int| 0 <= j < self.states.len() implies self.index@.contains_key(
            fingerprint(#[trigger] self.states[j]@),
        ) && self.index@[fingerprint(self.states[j]@)]@.contains(j as usize) by {
            if j < at {
                assert(self.states[j] == old(self).states[j]);
                let key = fingerprint(old(self).states[j]@);
                assert(old(self).index@[key]@.contains(j as usize));
            }
        }
        true
    }
}

} // verus!
