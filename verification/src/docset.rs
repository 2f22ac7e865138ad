use vstd::prelude::*;

verus! {

/// A set of document indices drawn from `0 .. capacity()`, stored as a
/// bitmap.  Query evaluation is pure set algebra over values of this type:
/// every operation keeps the capacity, so all sets produced while answering
/// one query range over the same universe of documents.
pub struct DocSet {
    bits: Vec<bool>,
}

impl DocSet {
    /// How many document slots this set ranges over.
    pub closed spec fn capacity(self) -> nat {
        self.bits@.len()
    }

    /// Membership of document index `i`.
    pub closed spec fn contains(self, i: int) -> bool {
        0 <= i < self.bits@.len() && self.bits@[i]
    }

    /// The mathematical set of member indices.
    pub open spec fn to_set(self) -> Set<int> {
        Set::new(|i: int| self.contains(i))
    }

    /// The empty set over `n` documents.
    pub fn empty(n: usize) -> (r: DocSet)
        ensures
            r.capacity() == n,
            forall|i: int| !r.contains(i),
    {
        let mut bits: Vec<bool> = Vec::new();
        let mut i: usize = 0;
        while i < n
            invariant
                i <= n,
                bits@.len() == i,
                forall|j: int| 0 <= j < i ==> !bits@[j],
            decreases n - i,
        {
            bits.push(false);
            i += 1;
        }
        DocSet { bits }
    }

    /// The full universe over `n` documents.
    pub fn full(n: usize) -> (r: DocSet)
        ensures
            r.capacity() == n,
            forall|i: int| r.contains(i) <==> 0 <= i < n,
    {
        let mut bits: Vec<bool> = Vec::new();
        let mut i: usize = 0;
        while i < n
            invariant
                i <= n,
                bits@.len() == i,
                forall|j: int| 0 <= j < i ==> bits@[j],
            decreases n - i,
        {
            bits.push(true);
            i += 1;
        }
        DocSet { bits }
    }

    /// The number of document slots, as an executable value.
    pub fn len(&self) -> (n: usize)
        ensures
            n == self.capacity(),
    {
        self.bits.len()
    }

    /// Whether document index `i` is a member.
    pub fn get(&self, i: usize) -> (b: bool)
        requires
            i < self.capacity(),
        ensures
            b == self.contains(i as int),
    {
        self.bits[i]
    }

    /// Adds document index `i`.
    pub fn insert(&mut self, i: usize)
        requires
            i < old(self).capacity(),
        ensures
            final(self).capacity() == old(self).capacity(),
            forall|j: int|
                final(self).contains(j) <==> (old(self).contains(j) || j == i),
    {
        self.bits.set(i, true);
    }

    /// An independent copy with the same members.
    pub fn duplicate(&self) -> (r: DocSet)
        ensures
            r.capacity() == self.capacity(),
            forall|i: int| r.contains(i) <==> self.contains(i),
    {
        let n = self.bits.len();
        let mut bits: Vec<bool> = Vec::new();
        let mut i: usize = 0;
        while i < n
            invariant
                i <= n,
                n == self.bits@.len(),
                bits@.len() == i,
                forall|j: int| 0 <= j < i ==> bits@[j] == self.bits@[j],
            decreases n - i,
        {
            bits.push(self.bits[i]);
            i += 1;
        }
        DocSet { bits }
    }

    /// Set union.
    pub fn union(&self, other: &DocSet) -> (r: DocSet)
        requires
            self.capacity() == other.capacity(),
        ensures
            r.capacity() == self.capacity(),
            forall|i: int| r.contains(i) <==> (self.contains(i) || other.contains(i)),
    {
        let n = self.bits.len();
        let mut bits: Vec<bool> = Vec::new();
        let mut i: usize = 0;
        while i < n
            invariant
                i <= n,
                n == self.bits@.len(),
                n == other.bits@.len(),
                bits@.len() == i,
                forall|j: int| 0 <= j < i ==> bits@[j] == (self.bits@[j] || other.bits@[j]),
            decreases n - i,
        {
            bits.push(self.bits[i] || other.bits[i]);
            i += 1;
        }
        DocSet { bits }
    }

    /// Set intersection.
    pub fn intersect(&self, other: &DocSet) -> (r: DocSet)
        requires
            self.capacity() == other.capacity(),
        ensures
            r.capacity() == self.capacity(),
            forall|i: int| r.contains(i) <==> (self.contains(i) && other.contains(i)),
    {
        let n = self.bits.len();
        let mut bits: Vec<bool> = Vec::new();
        let mut i: usize = 0;
        while i < n
            invariant
                i <= n,
                n == self.bits@.len(),
                n == other.bits@.len(),
                bits@.len() == i,
                forall|j: int| 0 <= j < i ==> bits@[j] == (self.bits@[j] && other.bits@[j]),
            decreases n - i,
        {
            bits.push(self.bits[i] && other.bits[i]);
            i += 1;
        }
        DocSet { bits }
    }

    /// Complement against the universe `0 .. capacity()`.
    pub fn complement(&self) -> (r: DocSet)
        ensures
            r.capacity() == self.capacity(),
            forall|i: int|
                r.contains(i) <==> (0 <= i < self.capacity() && !self.contains(i)),
    {
        let n = self.bits.len();
        let mut bits: Vec<bool> = Vec::new();
        let mut i: usize = 0;
        while i < n
            invariant
                i <= n,
                n == self.bits@.len(),
                bits@.len() == i,
                forall|j: int| 0 <= j < i ==> bits@[j] == !self.bits@[j],
            decreases n - i,
        {
            bits.push(!self.bits[i]);
            i += 1;
        }
        DocSet { bits }
    }
}

} // verus!
