//! The count header of an n-gram model: how many distinct n-grams exist
//! for each order from 1 up to the model's maximum order.

use vstd::prelude::*;

verus! {

/// Number of distinct n-grams of one order.
#[derive(Clone, Copy, PartialEq, Eq, Structural, Debug)]
pub struct NGramCardinality {
    pub order: usize,
    pub cardinality: usize,
}

/// Error for a count set with a duplicate or missing order, or no entry at all.
#[derive(Clone, Copy, PartialEq, Eq, Structural, Debug)]
pub struct InvalidCounts;

impl NGramCardinality {
    /// Builds a cardinality record; only a positive order is meaningful.
    pub fn try_from_order_and_cardinality(order: usize, cardinality: usize) -> (r: Result<
        Self,
        InvalidCounts,
    >)
        ensures
            order >= 1 ==> r == Ok::<Self, InvalidCounts>(NGramCardinality { order, cardinality }),
            order == 0 ==> r == Err::<Self, InvalidCounts>(InvalidCounts),
    {
        if order == 0 {
            Err(InvalidCounts)
        } else {
            Ok(NGramCardinality { order, cardinality })
        }
    }
}

/// Some record of `s` is for the given order.
pub open spec fn has_order(s: Seq<NGramCardinality>, ord: int) -> bool {
    exists|k: int| 0 <= k < s.len() && #[trigger] s[k].order == ord
}

/// A count set is valid when it is non-empty and its orders are exactly
/// the set 1..=len: no duplicate and no missing order.
pub open spec fn valid_count_set(s: Seq<NGramCardinality>) -> bool {
    &&& s.len() >= 1
    &&& forall|i: int, j: int| 0 <= i < j < s.len() ==> s[i].order != s[j].order
    &&& forall|ord: int| 1 <= ord <= s.len() ==> #[trigger] has_order(s, ord)
}

/// The records of a valid count set arranged by order: position `i`
/// holds the record for order `i + 1`.
pub open spec fn canon_counts(cs: Seq<NGramCardinality>) -> Seq<NGramCardinality> {
    Seq::new(cs.len(), |i: int| cs[choose|j: int| 0 <= j < cs.len() && cs[j].order == i + 1])
}

/// The ordered count header: one cardinality per order from 1 to the
/// model's maximum order.
#[derive(Clone, Debug, PartialEq, Eq)]
pub struct Counts {
    counts: Vec<NGramCardinality>,
}

impl Counts {
    /// The mathematical content of the header: its records in order.
    pub closed spec fn spec_counts(self) -> Seq<NGramCardinality> {
        self.counts@
    }

    /// Well-formed counts hold one entry per order, sorted ascending.
    pub open spec fn wf(self) -> bool {
        &&& self.spec_counts().len() >= 1
        &&& forall|i: int|
            0 <= i < self.spec_counts().len() ==> (#[trigger] self.spec_counts()[i]).order == i + 1
    }

    /// Spec view of the highest order present.
    pub open spec fn spec_order(self) -> int {
        self.spec_counts().len() as int
    }

    /// Orders the given records by their order and validates that the
    /// orders are exactly 1..=len; any duplicate or missing order, or an
    /// empty collection, is rejected.
    pub fn from_count_vec(counts: Vec<NGramCardinality>) -> (r: Result<Counts, InvalidCounts>)
        ensures
            match r {
                Ok(c) => {
                    &&& valid_count_set(counts@)
                    &&& c.wf()
                    &&& c.spec_counts().len() == counts@.len()
                    &&& forall|i: int|
                        0 <= i < counts@.len() ==> counts@.contains(#[trigger] c.spec_counts()[i])
                    &&& c.spec_counts() =~= canon_counts(counts@)
                },
                Err(_) => !valid_count_set(counts@),
            },
    {
        let n: usize = counts.len();
        if n == 0 {
            return Err(InvalidCounts);
        }
        let mut i: usize = 0;
        while i < n
            invariant
                n == counts@.len(),
                0 <= i <= n,
                forall|a: int, b: int| 0 <= a < b < n && a < i ==> counts@[a].order != counts@[b].order,
            decreases n - i,
        {
            let mut j: usize = i + 1;
            while j < n
                invariant
                    n == counts@.len(),
                    0 <= i < n,
                    i < j <= n,
                    forall|b: int| i < b < j ==> counts@[i as int].order != counts@[b].order,
                decreases n - j,
            {
                if counts[i].order == counts[j].order {
                    return Err(InvalidCounts);
                }
                j += 1;
            }
            i += 1;
        }
        let mut out: Vec<NGramCardinality> = Vec::new();
        let mut idx: usize = 0;
        while idx < n
            invariant
                n == counts@.len(),
                0 <= idx <= n,
                out@.len() == idx,
                forall|m: int| 0 <= m < out@.len() ==> (#[trigger] out@[m]).order == m + 1,
                forall|m: int| 0 <= m < out@.len() ==> counts@.contains(#[trigger] out@[m]),
                forall|o2: int| 1 <= o2 <= idx ==> #[trigger] has_order(counts@, o2),
            decreases n - idx,
        {
            let ord: usize = idx + 1;
            let mut k: usize = 0;
            let mut found: bool = false;
            while k < n
                invariant_except_break
                    n == counts@.len(),
                    0 <= k <= n,
                    !found,
                    forall|m: int| 0 <= m < k ==> (#[trigger] counts@[m]).order != ord,
                ensures
                    found ==> k < n && counts@[k as int].order == ord,
                    !found ==> forall|m: int| 0 <= m < n ==> (#[trigger] counts@[m]).order != ord,
                decreases n - k,
            {
                if counts[k].order == ord {
                    found = true;
                    break ;
                }
                k += 1;
            }
            if !found {
                assert(!has_order(counts@, ord as int));
                return Err(InvalidCounts);
            }
            assert(has_order(counts@, ord as int));
            assert(counts@.contains(counts@[k as int]));
            out.push(counts[k]);
            idx += 1;
        }
        proof {
            assert forall|m: int| 0 <= m < out@.len() implies out@[m] == canon_counts(counts@)[m] by {
                let k = choose|k: int| 0 <= k < counts@.len() && counts@[k] == out@[m];
                assert(counts@[k].order == m + 1);
                let j = choose|j: int| 0 <= j < counts@.len() && counts@[j].order == m + 1;
                assert(counts@[j].order == m + 1);
                assert(j == k);
            }
        }
        Ok(Counts { counts: out })
    }

    /// Returns the cardinality record for the given order, or `None` when
    /// the order is not present.
    pub fn get(&self, idx: usize) -> (r: Option<NGramCardinality>)
        requires
            self.wf(),
        ensures
            1 <= idx <= self.spec_counts().len() ==> r == Some(self.spec_counts()[idx - 1]),
            !(1 <= idx <= self.spec_counts().len()) ==> r is None,
    {
        if idx >= 1 && idx <= self.counts.len() {
            Some(self.counts[idx - 1])
        } else {
            None
        }
    }

    /// The highest order described by this header.
    pub fn order(&self) -> (r: usize)
        requires
            self.wf(),
        ensures
            r == self.spec_order(),
    {
        self.counts.len()
    }

    /// All cardinality records, ascending by order.
    pub fn counts(&self) -> (r: &Vec<NGramCardinality>)
        ensures
            r@ == self.spec_counts(),
    {
        &self.counts
    }

    /// The cardinality records of every order but the highest.
    pub fn highest_order_minus_one_counts(&self) -> (r: Vec<NGramCardinality>)
        requires
            self.wf(),
        ensures
            r@ == self.spec_counts().subrange(0, self.spec_counts().len() - 1),
    {
        let mut out: Vec<NGramCardinality> = Vec::new();
        let mut i: usize = 0;
        let last: usize = self.counts.len() - 1;
        while i < last
            invariant
                last == self.spec_counts().len() - 1,
                0 <= i <= last,
                out@ == self.spec_counts().subrange(0, i as int),
            decreases last - i,
        {
            out.push(self.counts[i]);
            assert(out@ =~= self.spec_counts().subrange(0, i + 1));
            i += 1;
        }
        out
    }

    /// The cardinality record of the highest order.
    pub fn highest_order_count(&self) -> (r: NGramCardinality)
        requires
            self.wf(),
        ensures
            r == self.spec_counts().last(),
    {
        self.counts[self.counts.len() - 1]
    }
}

} // verus!
