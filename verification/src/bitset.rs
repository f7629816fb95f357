//! A set of board points, held as a 64-bit mask. The engine deliberately
//! restricts boards to at most 64 points so that point sets fit one word.

use vstd::prelude::*;

verus! {

/// A set of small numbers (board point indices), one bit each.
#[derive(Clone, Copy, Debug, PartialEq, Eq, Structural)]
pub struct BitSet {
    pub bits: u64,
}

/// Every nonzero word has some set bit.
proof fn lemma_nonzero_has_bit(b: u64)
    requires
        b != 0,
    ensures
        exists|i: u64| i < 64 && (b >> i) & 1u64 == 1u64,
    decreases b,
{
    if b & 1u64 == 1u64 {
        assert((b >> 0u64) & 1u64 == 1u64) by (bit_vector)
            requires
                b & 1u64 == 1u64,
        ;
    } else {
        let b2 = b >> 1u64;
        assert(b2 != 0 && b2 < b) by (bit_vector)
            requires
                b != 0,
                b & 1u64 != 1u64,
                b2 == b >> 1u64,
        ;
        lemma_nonzero_has_bit(b2);
        let i = choose|i: u64| i < 64 && (b2 >> i) & 1u64 == 1u64;
        assert(i < 63) by {
            if i == 63 {
                assert(((b >> 1u64) >> 63u64) & 1u64 == 0u64) by (bit_vector);
            }
        }
        assert((b >> (i + 1)) & 1u64 == 1u64) by (bit_vector)
            requires
                ((b >> 1u64) >> i) & 1u64 == 1u64,
                i < 63,
        ;
    }
}

impl BitSet {
    /// Whether `i` is a member.
    pub open spec fn has(self, i: int) -> bool {
        0 <= i < 64 && (self.bits >> (i as u64)) & 1u64 == 1u64
    }

    /// The members, as a mathematical set.
    pub open spec fn to_set(self) -> Set<int> {
        Set::new(|i: int| self.has(i))
    }

    /// The empty set.
    pub fn new() -> (r: BitSet)
        ensures
            r.to_set() == Set::<int>::empty(),
            r.bits == 0u64,
            forall|j: int| !(#[trigger] r.has(j)),
    {
        let r = BitSet { bits: 0 };
        proof {
            assert(forall|i: u64| i < 64 ==> (0u64 >> i) & 1u64 == 0u64) by (bit_vector);
            assert(r.to_set() =~= Set::<int>::empty());
        }
        r
    }

    /// Adds `n` to the set.
    pub fn insert(&mut self, n: usize)
        requires
            n < 64,
        ensures
            final(self).to_set() == old(self).to_set().insert(n as int),
            forall|j: int|
                #[trigger] final(self).has(j) == (old(self).has(j) || j == n as int),
    {
        let ghost obits = self.bits;
        let ghost gn = n;
        self.bits = self.bits | (1u64 << (n as u64));
        proof {
            let nbits = self.bits;
            assert(forall|i: u64|
                i < 64 ==> ((nbits >> i) & 1u64 == 1u64) == (((obits >> i) & 1u64 == 1u64) || i
                == gn as u64)) by (bit_vector)
                requires
                    nbits == obits | (1u64 << (gn as u64)),
                    gn < 64,
            ;
            assert(self.to_set() =~= old(self).to_set().insert(n as int));
        }
    }

    /// Whether `n` is in the set.
    pub fn contains(&self, n: usize) -> (r: bool)
        requires
            n < 64,
        ensures
            r == self.has(n as int),
    {
        let r = self.bits & (1u64 << (n as u64)) > 0;
        proof {
            let b = self.bits;
            let gn = n as u64;
            assert((b & (1u64 << gn) > 0u64) == ((b >> gn) & 1u64 == 1u64)) by (bit_vector)
                requires
                    gn < 64,
            ;
        }
        r
    }

    /// The number of members.
    pub fn len(&self) -> (r: usize)
        ensures
            r == self.to_set().len(),
    {
        let mut count: usize = 0;
        let mut i: usize = 0;
        let ghost mut seen: Set<int> = Set::empty();
        proof {
            assert(seen =~= Set::new(|j: int| 0 <= j < 0 && self.has(j)));
        }
        while i < 64
            invariant
                i <= 64,
                count == seen.len(),
                seen.finite(),
                seen =~= Set::new(|j: int| 0 <= j < i && self.has(j)),
                count <= i,
            decreases 64 - i,
        {
            if self.bits & (1u64 << (i as u64)) > 0 {
                count = count + 1;
                proof {
                    let b = self.bits;
                    let gi = i as u64;
                    assert((b >> gi) & 1u64 == 1u64) by (bit_vector)
                        requires
                            b & (1u64 << gi) > 0u64,
                            gi < 64,
                    ;
                    assert(self.has(i as int));
                    assert(!seen.contains(i as int));
                    seen = seen.insert(i as int);
                }
            } else {
                proof {
                    let b = self.bits;
                    let gi = i as u64;
                    assert(!((b >> gi) & 1u64 == 1u64)) by (bit_vector)
                        requires
                            b & (1u64 << gi) == 0u64,
                            gi < 64,
                    ;
                    assert(!self.has(i as int));
                }
            }
            i = i + 1;
            proof {
                assert(seen =~= Set::new(|j: int| 0 <= j < i && self.has(j)));
            }
        }
        proof {
            assert(seen =~= self.to_set());
        }
        count
    }

    /// Adds every member of `other` to this set.
    pub fn union_with(&mut self, other: &BitSet)
        ensures
            final(self).to_set() == old(self).to_set().union(other.to_set()),
            forall|j: int|
                #[trigger] final(self).has(j) == (old(self).has(j) || other.has(j)),
    {
        let ghost obits = self.bits;
        let ghost tbits = other.bits;
        self.bits = self.bits | other.bits;
        proof {
            let nbits = self.bits;
            assert(forall|i: u64|
                i < 64 ==> ((nbits >> i) & 1u64 == 1u64) == (((obits >> i) & 1u64 == 1u64) || ((
            tbits >> i) & 1u64 == 1u64))) by (bit_vector)
                requires
                    nbits == obits | tbits,
            ;
            assert(self.to_set() =~= old(self).to_set().union(other.to_set()));
        }
    }

    /// Whether every member equals `n`, that is, the set is empty or `{n}`.
    pub fn within_single(&self, n: usize) -> (r: bool)
        requires
            n < 64,
        ensures
            r == forall|j: int| self.has(j) ==> j == n as int,
    {
        let r = self.bits & !(1u64 << (n as u64)) == 0;
        proof {
            let b = self.bits;
            let gn = n as u64;
            if r {
                assert(forall|i: u64| i < 64 && (b >> i) & 1u64 == 1u64 ==> i == gn) by (
                bit_vector)
                    requires
                        b & !(1u64 << gn) == 0u64,
                        gn < 64,
                ;
            } else {
                let c = b & !(1u64 << gn);
                lemma_nonzero_has_bit(c);
                let i = choose|i: u64| i < 64 && (c >> i) & 1u64 == 1u64;
                assert((b >> i) & 1u64 == 1u64 && i != gn) by (bit_vector)
                    requires
                        c == b & !(1u64 << gn),
                        (c >> i) & 1u64 == 1u64,
                        gn < 64,
                        i < 64,
                ;
                assert(self.has(i as int));
            }
        }
        r
    }

    /// The least member, if any.
    pub fn first(&self) -> (r: Option<usize>)
        ensures
            r is Some ==> self.has(r->0 as int) && r->0 < 64 && forall|j: int|
                j < r->0 as int ==> !self.has(j),
            r is None ==> forall|j: int| !self.has(j),
    {
        let mut i: usize = 0;
        while i < 64
            invariant
                i <= 64,
                forall|j: int| 0 <= j < i ==> !self.has(j),
            decreases 64 - i,
        {
            if self.contains(i) {
                return Some(i);
            }
            i = i + 1;
        }
        None
    }

    /// Whether the set has no members.
    pub fn is_empty(&self) -> (r: bool)
        ensures
            r == (self.to_set() == Set::<int>::empty()),
    {
        let r = self.bits == 0;
        proof {
            let b = self.bits;
            if r {
                assert(forall|i: u64| i < 64 ==> (0u64 >> i) & 1u64 == 0u64) by (bit_vector);
                assert(self.to_set() =~= Set::<int>::empty());
            } else {
                lemma_nonzero_has_bit(b);
                let i = choose|i: u64| i < 64 && (b >> i) & 1u64 == 1u64;
                assert(self.has(i as int));
                assert(self.to_set().contains(i as int));
            }
        }
        r
    }
}

} // verus!
