//! Pluggable vocabulary mappings: a real insertion-ordered table, a
//! no-op table, and an enum choosing between them at run time.

use vstd::prelude::*;

verus! {

/// A bidirectional mapping between values and dense indexes.
pub trait BidirectionalMapping<INDEX, VALUE> {
    fn insert_or_get_index(&mut self, value: VALUE) -> INDEX;

    fn get_index(&self, value: &VALUE) -> Option<INDEX>;

    fn get_value(&self, index: INDEX) -> Option<VALUE>;

    fn len(&self) -> usize;
}

/// Whether the token list `m` holds `k`.
pub open spec fn toks_contains(m: Seq<Seq<char>>, k: Seq<char>) -> bool {
    exists|i: int| 0 <= i < m.len() && m[i] == k
}

/// The position of `k` in `m` (meaningful only when it is held).
pub open spec fn toks_index(m: Seq<Seq<char>>, k: Seq<char>) -> int {
    choose|i: int| 0 <= i < m.len() && m[i] == k
}

/// Insertion-ordered token table; ids are dense and never renumbered.
#[derive(Debug)]
pub struct HashMapVecMap {
    reverse: Vec<String>,
}

impl HashMapVecMap {
    /// The stored tokens in insertion order; a token's id is its position.
    pub closed spec fn tokens(self) -> Seq<Seq<char>> {
        self.reverse.deep_view()
    }

    /// No token is stored twice and every id fits the id type.
    pub open spec fn wf(self) -> bool {
        &&& self.tokens().len() <= u32::MAX
        &&& forall|i: int, j: int|
            0 <= i < j < self.tokens().len() ==> self.tokens()[i] != self.tokens()[j]
    }

    pub open spec fn spec_contains(self, k: Seq<char>) -> bool {
        toks_contains(self.tokens(), k)
    }

    /// The id of a stored token (meaningful only when it is stored).
    pub open spec fn token_index(self, k: Seq<char>) -> int {
        toks_index(self.tokens(), k)
    }

    pub fn new() -> (r: Self)
        ensures
            r.tokens() =~~= Seq::<Seq<char>>::empty(),
            r.wf(),
    {
        HashMapVecMap { reverse: Vec::new() }
    }

    /// Returns the id of `value`, storing it under the next free id when
    /// it is new; once the id space is exhausted a new token is not
    /// stored and the largest id is answered instead.
    pub fn insert_or_get_index(&mut self, value: String) -> (r: u32)
        ensures
            old(self).wf() ==> final(self).wf(),
            old(self).wf() && old(self).spec_contains(value@) ==> {
                &&& final(self).tokens() == old(self).tokens()
                &&& r == old(self).token_index(value@)
            },
            old(self).wf() && !old(self).spec_contains(value@) && old(self).tokens().len()
                < u32::MAX ==> {
                &&& final(self).tokens() =~~= old(self).tokens().push(value@)
                &&& r == old(self).tokens().len()
            },
            old(self).wf() && !old(self).spec_contains(value@) && old(self).tokens().len()
                >= u32::MAX ==> {
                &&& final(self).tokens() == old(self).tokens()
                &&& r == u32::MAX
            },
    {
        let n: usize = self.reverse.len();
        let mut i: usize = 0;
        while i < n
            invariant
                self == old(self),
                n == self.tokens().len(),
                0 <= i <= n,
                forall|m: int| 0 <= m < i ==> self.tokens()[m] != value@,
            decreases n - i,
        {
            if self.reverse[i] == value {
                proof {
                    assert(self.tokens()[i as int] == value@);
                    if self.wf() {
                        let j = self.token_index(value@);
                        assert(self.tokens()[j] == value@);
                        assert(j == i as int);
                    }
                }
                return #[verifier::truncate] (i as u32);
            }
            assert(self.tokens()[i as int] == self.reverse@[i as int]@);
            i += 1;
        }
        assert(!self.spec_contains(value@));
        if n >= u32::MAX as usize {
            return u32::MAX;
        }
        let ghost prev = self.tokens();
        self.reverse.push(value);
        proof {
            assert(self.tokens() =~~= prev.push(value@));
        }
        #[verifier::truncate] (n as u32)
    }

    /// The id of `value`, or `None` when the table does not hold it.
    pub fn get_index(&self, value: &String) -> (r: Option<u32>)
        ensures
            self.wf() ==> match r {
                Some(i) => self.spec_contains(value@) && i == self.token_index(value@),
                None => !self.spec_contains(value@),
            },
    {
        let n: usize = self.reverse.len();
        let mut i: usize = 0;
        while i < n
            invariant
                n == self.tokens().len(),
                0 <= i <= n,
                forall|m: int| 0 <= m < i ==> self.tokens()[m] != value@,
            decreases n - i,
        {
            if self.reverse[i] == *value {
                proof {
                    assert(self.tokens()[i as int] == value@);
                    if self.wf() {
                        let j = self.token_index(value@);
                        assert(self.tokens()[j] == value@);
                        assert(j == i as int);
                    }
                }
                return Some(#[verifier::truncate] (i as u32));
            }
            assert(self.tokens()[i as int] == self.reverse@[i as int]@);
            i += 1;
        }
        None
    }

    /// The token stored under `index`, or `None` when the id is unused.
    pub fn get_value(&self, index: u32) -> (r: Option<String>)
        ensures
            index < self.tokens().len() ==> (r matches Some(s) && s@ == self.tokens()[index as int]),
            index >= self.tokens().len() ==> r is None,
    {
        if (index as usize) < self.reverse.len() {
            let s: String = self.reverse[index as usize].clone();
            assert(s@ == self.tokens()[index as int]);
            Some(s)
        } else {
            None
        }
    }

    /// The number of stored tokens.
    pub fn len(&self) -> (r: usize)
        ensures
            r == self.tokens().len(),
    {
        self.reverse.len()
    }
}

impl Default for HashMapVecMap {
    fn default() -> (r: Self)
        ensures
            r.tokens() =~~= Seq::<Seq<char>>::empty(),
            r.wf(),
    {
        HashMapVecMap::new()
    }
}

impl BidirectionalMapping<u32, String> for HashMapVecMap {
    fn insert_or_get_index(&mut self, value: String) -> u32 {
        HashMapVecMap::insert_or_get_index(self, value)
    }

    fn get_index(&self, value: &String) -> Option<u32> {
        HashMapVecMap::get_index(self, value)
    }

    fn get_value(&self, index: u32) -> Option<String> {
        HashMapVecMap::get_value(self, index)
    }

    fn len(&self) -> usize {
        HashMapVecMap::len(self)
    }
}

/// A mapping that stores nothing and answers with defaults.
#[derive(Debug)]
pub struct NoOPMapping;

impl BidirectionalMapping<u32, String> for NoOPMapping {
    fn insert_or_get_index(&mut self, _value: String) -> u32 {
        0
    }

    fn get_index(&self, _value: &String) -> Option<u32> {
        None
    }

    fn get_value(&self, _index: u32) -> Option<String> {
        None
    }

    fn len(&self) -> usize {
        0
    }
}

/// The vocabulary attached to a parsed model: a real table, or nothing.
#[derive(Debug)]
pub enum Mappings {
    HashVecMap(HashMapVecMap),
    NoOp,
}

impl Mappings {
    /// The stored tokens; the no-op variant stores none.
    pub open spec fn tokens(self) -> Seq<Seq<char>> {
        match self {
            Mappings::HashVecMap(hm) => hm.tokens(),
            Mappings::NoOp => Seq::empty(),
        }
    }

    pub open spec fn wf(self) -> bool {
        match self {
            Mappings::HashVecMap(hm) => hm.wf(),
            Mappings::NoOp => true,
        }
    }

    /// Inserts through to the table variant; the no-op variant answers 0.
    pub fn insert_or_get_index(&mut self, value: String) -> (r: u32)
        ensures
            (*old(self)) is NoOp ==> (*final(self)) is NoOp && r == 0,
            old(self).wf() ==> final(self).wf(),
            *old(self) matches Mappings::HashVecMap(h) ==> (*final(self) matches
                Mappings::HashVecMap(h2) && {
                &&& h.wf() && h.spec_contains(value@) ==> h2.tokens() == h.tokens() && r
                    == h.token_index(value@)
                &&& h.wf() && !h.spec_contains(value@) && h.tokens().len() < u32::MAX ==> h2
                    .tokens() =~~= h.tokens().push(value@) && r == h.tokens().len()
                &&& h.wf() && !h.spec_contains(value@) && h.tokens().len() >= u32::MAX ==> h2
                    .tokens() == h.tokens() && r == u32::MAX
            }),
    {
        match self {
            Mappings::HashVecMap(hm) => HashMapVecMap::insert_or_get_index(hm, value),
            Mappings::NoOp => 0,
        }
    }

    /// Looks up through to the table variant; the no-op variant answers
    /// `None`.
    pub fn get_index(&self, value: &String) -> (r: Option<u32>)
        ensures
            (*self) is NoOp ==> r is None,
            *self matches Mappings::HashVecMap(h) ==> (h.wf() ==> match r {
                Some(i) => h.spec_contains(value@) && i == h.token_index(value@),
                None => !h.spec_contains(value@),
            }),
    {
        match self {
            Mappings::HashVecMap(hm) => HashMapVecMap::get_index(hm, value),
            Mappings::NoOp => None,
        }
    }

    /// The token under `index`, when a table variant stores it.
    pub fn get_value(&self, index: u32) -> (r: Option<String>)
        ensures
            index < self.tokens().len() ==> (r matches Some(s) && s@ == self.tokens()[index as int]),
            index >= self.tokens().len() ==> r is None,
    {
        match self {
            Mappings::HashVecMap(hm) => HashMapVecMap::get_value(hm, index),
            Mappings::NoOp => None,
        }
    }

    /// The number of stored tokens.
    pub fn len(&self) -> (r: usize)
        ensures
            r == self.tokens().len(),
    {
        match self {
            Mappings::HashVecMap(hm) => HashMapVecMap::len(hm),
            Mappings::NoOp => 0,
        }
    }
}

impl Default for Mappings {
    fn default() -> (r: Self)
        ensures
            (r matches Mappings::HashVecMap(h) && h.tokens() =~~= Seq::<Seq<char>>::empty()
                && h.wf()),
    {
        Mappings::HashVecMap(HashMapVecMap::new())
    }
}

impl BidirectionalMapping<u32, String> for Mappings {
    fn insert_or_get_index(&mut self, value: String) -> u32 {
        Mappings::insert_or_get_index(self, value)
    }

    fn get_index(&self, value: &String) -> Option<u32> {
        Mappings::get_index(self, value)
    }

    fn get_value(&self, index: u32) -> Option<String> {
        Mappings::get_value(self, index)
    }

    fn len(&self) -> usize {
        Mappings::len(self)
    }
}

} // verus!
