//! A bidirectional mapping between token text and a dense,
//! insertion-ordered integer id.

use vstd::prelude::*;

verus! {

/// Token table assigning each distinct token the next free id, in
/// insertion order; ids are never reused or renumbered.
#[derive(Debug)]
pub struct BidiMapping {
    reverse: Vec<String>,
}

impl BidiMapping {
    /// The stored tokens in insertion order; a token's id is its position.
    pub closed spec fn tokens(self) -> Seq<Seq<char>> {
        self.reverse.deep_view()
    }

    pub open spec fn spec_len(self) -> int {
        self.tokens().len() as int
    }

    pub open spec fn spec_contains(self, k: Seq<char>) -> bool {
        exists|i: int| 0 <= i < self.tokens().len() && self.tokens()[i] == k
    }

    /// No token is stored twice, and every token has an id that fits
    /// the id type.
    pub open spec fn wf(self) -> bool {
        &&& self.tokens().len() <= u32::MAX
        &&& forall|i: int, j: int|
            0 <= i < j < self.tokens().len() ==> self.tokens()[i] != self.tokens()[j]
    }

    pub fn new() -> (r: Self)
        ensures
            r.tokens() =~~= Seq::<Seq<char>>::empty(),
            r.wf(),
    {
        BidiMapping { reverse: Vec::new() }
    }

    /// Returns the id of `key`, storing it under the next free id first
    /// when it is new; storing the same token twice never changes the
    /// table.
    pub fn insert_or_get(&mut self, key: String) -> (r: u32)
        requires
            old(self).wf(),
            old(self).spec_len() < u32::MAX as int,
        ensures
            final(self).wf(),
            old(self).spec_contains(key@) ==> {
                &&& final(self).tokens() == old(self).tokens()
                &&& 0 <= r < final(self).tokens().len()
                &&& final(self).tokens()[r as int] == key@
            },
            !old(self).spec_contains(key@) ==> {
                &&& final(self).tokens() =~~= old(self).tokens().push(key@)
                &&& r == old(self).spec_len()
            },
    {
        let n: usize = self.reverse.len();
        let mut i: usize = 0;
        while i < n
            invariant
                self == old(self),
                self.wf(),
                n == self.tokens().len(),
                n <= u32::MAX,
                0 <= i <= n,
                forall|m: int| 0 <= m < i ==> self.tokens()[m] != key@,
            decreases n - i,
        {
            if self.reverse[i] == key {
                assert(self.tokens()[i as int] == key@);
                return i as u32;
            }
            assert(self.tokens()[i as int] == self.reverse@[i as int]@);
            i += 1;
        }
        assert(!self.spec_contains(key@));
        let ghost prev = self.tokens();
        self.reverse.push(key);
        proof {
            assert(self.tokens() =~~= prev.push(key@));
        }
        n as u32
    }

    /// The id of `key`, or `None` when the table does not hold it.
    pub fn get_index(&self, key: &str) -> (r: Option<u32>)
        requires
            self.wf(),
        ensures
            match r {
                Some(i) => 0 <= i < self.tokens().len() && self.tokens()[i as int] == key@,
                None => !self.spec_contains(key@),
            },
            self.spec_contains(key@) ==> r is Some,
    {
        let owned: String = key.to_owned();
        let n: usize = self.reverse.len();
        let mut i: usize = 0;
        while i < n
            invariant
                n == self.tokens().len(),
                n <= u32::MAX,
                0 <= i <= n,
                owned@ == key@,
                forall|m: int| 0 <= m < i ==> self.tokens()[m] != key@,
            decreases n - i,
        {
            if self.reverse[i] == owned {
                assert(self.tokens()[i as int] == key@);
                return Some(i as u32);
            }
            assert(self.tokens()[i as int] == self.reverse@[i as int]@);
            i += 1;
        }
        None
    }

    /// The token stored under `index`, or `None` when the id is unused.
    pub fn get_value(&self, index: u32) -> (r: Option<String>)
        ensures
            index < self.tokens().len() ==> (r matches Some(s) && s@ == self.tokens()[index as int]),
            index >= self.tokens().len() ==> r is None,
    {
        if (index as usize) < self.reverse.len() {
            let s: String = self.reverse[index as usize].clone();
            assert(s@ == self.tokens()[index as int]);
            Some(s)
        } else {
            None
        }
    }

    /// All stored tokens, in id order.
    pub fn values(&self) -> (r: &Vec<String>)
        ensures
            r.deep_view() == self.tokens(),
    {
        &self.reverse
    }

    /// The number of stored tokens.
    pub fn len(&self) -> (r: usize)
        ensures
            r == self.spec_len(),
    {
        self.reverse.len()
    }
}

impl Default for BidiMapping {
    fn default() -> (r: Self)
        ensures
            r.tokens() =~~= Seq::<Seq<char>>::empty(),
            r.wf(),
    {
        BidiMapping::new()
    }
}

} // verus!
