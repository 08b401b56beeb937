//! The compact index: every n-gram's byte key in one sorted automaton
//! map, looked up by longest-suffix traversal, together with the
//! incremental backoff scorer that drives it.

use vstd::prelude::*;

use fst::{IntoStreamer, Streamer};

use crate::arpa::ArpaFileSections;
use crate::ngram::{rev_key, vec_into_bytes, ProbBackoff, ProbBackoffNgram};

verus! {

#[verifier::external_type_specification]
#[verifier::external_body]
#[verifier::reject_recursive_types(D)]
pub struct ExFstMap<D>(fst::Map<D>);

/// The key-value pairs an automaton map holds.
pub uninterp spec fn fst_contents(m: fst::Map<Vec<u8>>) -> Map<Seq<u8>, u64>;

/// Lexicographic byte order.
pub open spec fn lex_le(a: Seq<u8>, b: Seq<u8>) -> bool
    decreases a.len(),
{
    if a.len() == 0 {
        true
    } else if b.len() == 0 {
        false
    } else if a[0] < b[0] {
        true
    } else if a[0] > b[0] {
        false
    } else {
        lex_le(a.skip(1), b.skip(1))
    }
}

pub open spec fn lex_lt(a: Seq<u8>, b: Seq<u8>) -> bool {
    lex_le(a, b) && a != b
}

pub proof fn lemma_lex_total(a: Seq<u8>, b: Seq<u8>)
    ensures
        lex_le(a, b) || lex_le(b, a),
        lex_le(a, b) && lex_le(b, a) ==> a == b,
    decreases a.len(),
{
    if a.len() > 0 && b.len() > 0 && a[0] == b[0] {
        lemma_lex_total(a.skip(1), b.skip(1));
        if lex_le(a, b) && lex_le(b, a) {
            assert(a.skip(1) == b.skip(1));
            assert(a =~= b) by {
                assert(forall|i: int|
                    1 <= i < a.len() ==> a[i] == a.skip(1)[i - 1] && b[i] == b.skip(1)[i - 1]);
            }
        }
    }
}

pub proof fn lemma_lex_trans(a: Seq<u8>, b: Seq<u8>, c: Seq<u8>)
    requires
        lex_le(a, b),
        lex_le(b, c),
    ensures
        lex_le(a, c),
    decreases a.len(),
{
    if a.len() > 0 && b.len() > 0 && c.len() > 0 && a[0] == b[0] && b[0] == c[0] {
        lemma_lex_trans(a.skip(1), b.skip(1), c.skip(1));
    }
}

/// A prefix never orders after what it prefixes.
pub proof fn lemma_prefix_le(p: Seq<u8>, k: Seq<u8>)
    requires
        p.is_prefix_of(k),
    ensures
        lex_le(p, k),
    decreases p.len(),
{
    if p.len() > 0 {
        assert(p[0] == k[0]);
        assert(p.skip(1).is_prefix_of(k.skip(1)));
        lemma_prefix_le(p.skip(1), k.skip(1));
    }
}

/// Anything ordered between a prefix and a word it prefixes shares that
/// prefix.
pub proof fn lemma_between_prefix(p: Seq<u8>, k: Seq<u8>, j: Seq<u8>)
    requires
        p.is_prefix_of(j),
        lex_le(p, k),
        lex_le(k, j),
    ensures
        p.is_prefix_of(k),
    decreases p.len(),
{
    if p.len() > 0 {
        assert(p[0] == j[0]);
        if k.len() == 0 {
            assert(!lex_le(p, k));
        } else {
            if k[0] < p[0] {
                assert(!lex_le(p, k));
            } else if k[0] > p[0] {
                assert(!lex_le(k, j));
            } else {
                assert(p.skip(1).is_prefix_of(j.skip(1)));
                lemma_between_prefix(p.skip(1), k.skip(1), j.skip(1));
                assert(p =~= k.take(p.len() as int)) by {
                    assert(p.skip(1) =~= k.skip(1).take(p.len() - 1));
                    assert(forall|i: int|
                        1 <= i < p.len() ==> p[i] == p.skip(1)[i - 1] && k[i] == k.skip(1)[i - 1]);
                }
            }
        }
    }
}

/// Relies on `fst::Map::from_iter`: building from strictly increasing
/// distinct byte keys succeeds, and the map then holds exactly the given
/// pairs.
#[verifier::external_body]
fn fst_from_sorted(pairs: Vec<(Vec<u8>, u64)>) -> (m: fst::Map<Vec<u8>>)
    requires
        forall|i: int, j: int|
            0 <= i < j < pairs@.len() ==> lex_lt(
                (#[trigger] pairs@[i]).0@,
                (#[trigger] pairs@[j]).0@,
            ),
    ensures
        forall|i: int|
            0 <= i < pairs@.len() ==> fst_contents(m).contains_pair(
                (#[trigger] pairs@[i]).0@,
                pairs@[i].1,
            ),
        forall|k: Seq<u8>|
            #[trigger] fst_contents(m).dom().contains(k) ==> exists|i: int|
                0 <= i < pairs@.len() && (#[trigger] pairs@[i]).0@ == k,
{
    fst::Map::from_iter(pairs).unwrap()
}

/// Relies on `fst::Map::get`: answers the value stored under the key.
#[verifier::external_body]
fn fst_get(m: &fst::Map<Vec<u8>>, key: &Vec<u8>) -> (r: Option<u64>)
    ensures
        r == if fst_contents(*m).dom().contains(key@) {
            Some(fst_contents(*m)[key@])
        } else {
            None::<u64>
        },
{
    m.get(key)
}

/// Relies on `fst::Map::range` with a lower bound and on its stream:
/// keys stream in ascending lexicographic order, so the first one is the
/// least key at or above the bound.
#[verifier::external_body]
fn fst_next_key_ge(m: &fst::Map<Vec<u8>>, lower: &Vec<u8>) -> (r: Option<Vec<u8>>)
    ensures
        match r {
            Some(k) => {
                &&& fst_contents(*m).dom().contains(k@)
                &&& lex_le(lower@, k@)
                &&& forall|j: Seq<u8>|
                    #![auto]
                    fst_contents(*m).dom().contains(j) && lex_le(lower@, j) ==> lex_le(k@, j)
            },
            None => forall|j: Seq<u8>|
                #![auto]
                fst_contents(*m).dom().contains(j) ==> !lex_le(lower@, j),
        },
{
    let mut stream = m.range().ge(lower.as_slice()).into_stream();
    stream.next().map(|kv: (&[u8], u64)| kv.0.to_vec())
}

/// Some stored key starts with these bytes: the automaton still has a
/// transition to follow.
pub open spec fn is_path(c: Map<Seq<u8>, u64>, p: Seq<u8>) -> bool {
    exists|k: Seq<u8>| #[trigger] c.dom().contains(k) && p.is_prefix_of(k)
}

/// Exec byte-wise prefix test.
fn bytes_prefix_of(p: &Vec<u8>, k: &Vec<u8>) -> (r: bool)
    ensures
        r == p@.is_prefix_of(k@),
{
    if p.len() > k.len() {
        return false;
    }
    let mut i: usize = 0;
    while i < p.len()
        invariant
            0 <= i <= p@.len() <= k@.len(),
            forall|m: int| 0 <= m < i ==> p@[m] == k@[m],
        decreases p@.len() - i,
    {
        if p[i] != k[i] {
            return false;
        }
        i += 1;
    }
    assert(p@ =~= k@.take(p@.len() as int));
    true
}

/// Whether the automaton can follow the bytes of `p`: true exactly when
/// some stored key extends them.
fn map_has_prefix(m: &fst::Map<Vec<u8>>, p: &Vec<u8>) -> (r: bool)
    ensures
        r == is_path(fst_contents(*m), p@),
{
    match fst_next_key_ge(m, p) {
        None => {
            proof {
                if is_path(fst_contents(*m), p@) {
                    let j = choose|j: Seq<u8>|
                        #[trigger] fst_contents(*m).dom().contains(j) && p@.is_prefix_of(j);
                    lemma_prefix_le(p@, j);
                }
            }
            false
        },
        Some(k) => {
            let pref = bytes_prefix_of(p, &k);
            proof {
                if pref {
                    assert(is_path(fst_contents(*m), p@));
                } else {
                    if is_path(fst_contents(*m), p@) {
                        let j = choose|j: Seq<u8>|
                            #[trigger] fst_contents(*m).dom().contains(j) && p@.is_prefix_of(j);
                        lemma_prefix_le(p@, j);
                        lemma_between_prefix(p@, k@, j);
                    }
                }
            }
            pref
        },
    }
}

} // verus!

verus! {

/// Exec lexicographic comparison from a common position on.
fn lex_le_bytes_from(a: &Vec<u8>, b: &Vec<u8>, i: usize) -> (r: bool)
    requires
        i <= a@.len(),
        i <= b@.len(),
    ensures
        r == lex_le(a@.skip(i as int), b@.skip(i as int)),
    decreases a@.len() - i,
{
    if i == a.len() {
        return true;
    }
    if i == b.len() {
        return false;
    }
    proof {
        assert(a@.skip(i as int)[0] == a@[i as int]);
        assert(b@.skip(i as int)[0] == b@[i as int]);
        assert(a@.skip(i as int).skip(1) =~= a@.skip(i + 1));
        assert(b@.skip(i as int).skip(1) =~= b@.skip(i + 1));
    }
    if a[i] < b[i] {
        true
    } else if a[i] > b[i] {
        false
    } else {
        lex_le_bytes_from(a, b, i + 1)
    }
}

/// Exec lexicographic comparison of byte keys.
fn lex_le_bytes(a: &Vec<u8>, b: &Vec<u8>) -> (r: bool)
    ensures
        r == lex_le(a@, b@),
{
    let r = lex_le_bytes_from(a, b, 0);
    proof {
        assert(a@.skip(0) =~= a@);
        assert(b@.skip(0) =~= b@);
    }
    r
}

/// A score record: the highest order stores only a log probability, all
/// lower orders also store a backoff.
#[derive(Debug, Clone, PartialEq, Eq)]
pub enum Scores {
    Longest(String),
    Middle(ProbBackoff),
}

impl Scores {
    /// The log probability token of the record.
    pub open spec fn spec_score(self) -> Seq<char> {
        match self {
            Scores::Longest(s) => s@,
            Scores::Middle(pb) => pb.log_prob@,
        }
    }

    /// The backoff token of the record; the highest order pays none.
    pub open spec fn spec_backoff(self) -> Seq<char> {
        match self {
            Scores::Longest(_) => seq!['0'],
            Scores::Middle(pb) => pb.backoff@,
        }
    }

    /// The stored log probability token.
    pub fn score(&self) -> (r: String)
        ensures
            r@ == self.spec_score(),
    {
        match self {
            Scores::Longest(s) => s.clone(),
            Scores::Middle(pb) => pb.log_prob.clone(),
        }
    }

    /// The stored backoff token; a highest order record answers zero.
    pub fn backoff(&self) -> (r: String)
        ensures
            r@ == self.spec_backoff(),
    {
        match self {
            Scores::Longest(_) => {
                let z: String = String::from_str("0");
                proof {
                    reveal_strlit("0");
                    assert(z@ =~= seq!['0']);
                }
                z
            },
            Scores::Middle(pb) => pb.backoff.clone(),
        }
    }
}

/// An exact copy of a score record.
fn clone_score(s: &Scores) -> (r: Scores)
    ensures
        r == *s,
{
    match s {
        Scores::Longest(p) => Scores::Longest(p.clone()),
        Scores::Middle(pb) => Scores::Middle(
            ProbBackoff { log_prob: pb.log_prob.clone(), backoff: pb.backoff.clone() },
        ),
    }
}

/// The mathematical content of a key-value pair.
pub open spec fn pair_view(p: (Vec<u8>, u64)) -> (Seq<u8>, u64) {
    (p.0@, p.1)
}

/// Whether a list holds a pair with this content.
pub open spec fn pair_in(p: (Vec<u8>, u64), s: Seq<(Vec<u8>, u64)>) -> bool {
    exists|j: int| 0 <= j < s.len() && pair_view(p) == pair_view(#[trigger] s[j])
}

/// Inserts each pair into a new list kept strictly ascending by key;
/// the result holds exactly the views of the given pairs.
fn sort_pairs(pairs: Vec<(Vec<u8>, u64)>) -> (r: Vec<(Vec<u8>, u64)>)
    requires
        forall|i: int, j: int|
            0 <= i < j < pairs@.len() ==> (#[trigger] pairs@[i]).0@ != (#[trigger] pairs@[j]).0@,
    ensures
        forall|i: int, j: int|
            0 <= i < j < r@.len() ==> lex_lt((#[trigger] r@[i]).0@, (#[trigger] r@[j]).0@),
        forall|i: int| 0 <= i < pairs@.len() ==> #[trigger] pair_in(pairs@[i], r@),
        forall|j: int| 0 <= j < r@.len() ==> #[trigger] pair_in(r@[j], pairs@),
{
    let n: usize = pairs.len();
    let mut out: Vec<(Vec<u8>, u64)> = Vec::new();
    let mut i: usize = 0;
    while i < n
        invariant
            0 <= i <= n,
            n == pairs@.len(),
            forall|a: int, b: int|
                0 <= a < b < pairs@.len() ==> (#[trigger] pairs@[a]).0@ != (
                #[trigger] pairs@[b]).0@,
            forall|a: int, b: int|
                0 <= a < b < out@.len() ==> lex_lt((#[trigger] out@[a]).0@, (#[trigger] out@[b]).0@),
            forall|a: int| 0 <= a < i ==> #[trigger] pair_in(pairs@[a], out@),
            forall|m: int| 0 <= m < out@.len() ==> #[trigger] pair_in(out@[m], pairs@.take(i as int)),
        decreases n - i,
    {
        let key: Vec<u8> = pairs[i].0.clone();
        let val: u64 = pairs[i].1;
        assert(key@ == pairs@[i as int].0@);
        let ghost prev = out@;
        let mut j: usize = 0;
        while j < out.len()
            invariant_except_break
                0 <= j <= out@.len(),
                out@ == prev,
                key@ == pairs@[i as int].0@,
                forall|m: int| 0 <= m < j ==> lex_le((#[trigger] out@[m]).0@, key@),
            ensures
                0 <= j <= prev.len(),
                out@ == prev,
                forall|m: int| 0 <= m < j ==> lex_le((#[trigger] prev[m]).0@, key@),
                j < prev.len() ==> lex_le(key@, prev[j as int].0@),
            decreases out@.len() - j,
        {
            if lex_le_bytes(&key, &out[j].0) {
                break ;
            }
            proof {
                lemma_lex_total(key@, out@[j as int].0@);
            }
            j += 1;
        }
        proof {
            assert forall|m: int| 0 <= m < prev.len() implies (#[trigger] prev[m]).0@ != key@ by {
                assert(pair_in(prev[m], pairs@.take(i as int)));
                let a = choose|a: int|
                    0 <= a < pairs@.take(i as int).len() && pair_view(prev[m]) == pair_view(
                        #[trigger] pairs@.take(i as int)[a],
                    );
                assert(pairs@[a].0@ == prev[m].0@);
            }
        }
        out.insert(j, (key, val));
        proof {
            let x = out@[j as int];
            assert(x.0@ == pairs@[i as int].0@ && x.1 == pairs@[i as int].1);
            assert(pair_view(x) == pair_view(pairs@[i as int]));
            assert(forall|m: int| 0 <= m < j ==> out@[m] == prev[m]);
            assert(forall|m: int| j < m < out@.len() ==> out@[m] == prev[m - 1]);
            assert forall|a: int, b: int|
                0 <= a < b < out@.len() implies lex_lt(
                (#[trigger] out@[a]).0@,
                (#[trigger] out@[b]).0@,
            ) by {
                if a < j && b == j {
                    assert(lex_le(prev[a].0@, key@));
                    assert(prev[a].0@ != key@);
                } else if a == j && b > j {
                    assert(lex_le(key@, prev[j as int].0@));
                    assert(prev[b - 1].0@ != key@);
                    if j < b - 1 {
                        assert(lex_lt(prev[j as int].0@, prev[b - 1].0@));
                        lemma_lex_trans(key@, prev[j as int].0@, prev[b - 1].0@);
                    }
                } else if a < j && b > j {
                    if a < b - 1 {
                        assert(lex_lt(prev[a].0@, prev[b - 1].0@));
                    }
                }
            }
            assert forall|a: int| 0 <= a < i + 1 implies #[trigger] pair_in(
                pairs@[a],
                out@,
            ) by {
                if a < i {
                    assert(pair_in(pairs@[a], prev));
                    let m0 = choose|m0: int|
                        0 <= m0 < prev.len() && pair_view(pairs@[a]) == pair_view(
                            #[trigger] prev[m0],
                        );
                    if m0 < j {
                        assert(pair_view(pairs@[a]) == pair_view(out@[m0]));
                    } else {
                        assert(pair_view(pairs@[a]) == pair_view(out@[m0 + 1]));
                    }
                } else {
                    assert(pair_view(pairs@[a]) == pair_view(out@[j as int]));
                }
            }
            assert forall|m: int| 0 <= m < out@.len() implies #[trigger] pair_in(
                out@[m],
                pairs@.take(i + 1),
            ) by {
                if m < j {
                    assert(pair_in(prev[m], pairs@.take(i as int)));
                    let a = choose|a: int|
                        0 <= a < pairs@.take(i as int).len() && pair_view(prev[m]) == pair_view(
                            #[trigger] pairs@.take(i as int)[a],
                        );
                    assert(pair_view(out@[m]) == pair_view(pairs@.take(i + 1)[a]));
                } else if m == j {
                    assert(pair_view(out@[m]) == pair_view(pairs@.take(i + 1)[i as int]));
                } else {
                    assert(pair_in(prev[m - 1], pairs@.take(i as int)));
                    let a = choose|a: int|
                        0 <= a < pairs@.take(i as int).len() && pair_view(prev[m - 1]) == pair_view(
                            #[trigger] pairs@.take(i as int)[a],
                        );
                    assert(pair_view(out@[m]) == pair_view(pairs@.take(i + 1)[a]));
                }
            }
        }
        i += 1;
    }
    proof {
        assert forall|m: int| 0 <= m < out@.len() implies #[trigger] pair_in(out@[m], pairs@) by {
            assert(pair_in(out@[m], pairs@.take(i as int)));
            let a = choose|a: int|
                0 <= a < pairs@.take(i as int).len() && pair_view(out@[m]) == pair_view(
                    #[trigger] pairs@.take(i as int)[a],
                );
            assert(pair_view(out@[m]) == pair_view(pairs@[a]));
        }
    }
    out
}

} // verus!

verus! {

/// The searchable index over every n-gram of a parsed model: a sorted
/// byte-key automaton mapping each key to a score record.
pub struct FstIndexer {
    pub fst: fst::Map<Vec<u8>>,
    pub scores: Vec<Scores>,
    pub order: usize,
}

/// The byte key of one backoff section record.
pub open spec fn mid_key(sections: ArpaFileSections<Vec<u32>>, s: int, k: int) -> Seq<u8> {
    rev_key(sections.backoffs@[s]@[k].ngram.0@)
}

/// The score record of one backoff section record.
pub open spec fn mid_rec(sections: ArpaFileSections<Vec<u32>>, s: int, k: int) -> Scores {
    Scores::Middle(sections.backoffs@[s]@[k].prob_backoff)
}

/// The byte key of one highest order record.
pub open spec fn long_key(sections: ArpaFileSections<Vec<u32>>, k: int) -> Seq<u8> {
    rev_key(sections.no_backoff@[k].ngram.0@)
}

/// The score record of one highest order record.
pub open spec fn long_rec(sections: ArpaFileSections<Vec<u32>>, k: int) -> Scores {
    Scores::Longest(sections.no_backoff@[k].prob)
}

/// The number of records in the first `s` backoff sections.
pub open spec fn sum_mid_lens(bs: Seq<Vec<ProbBackoffNgram<Vec<u32>>>>, s: int) -> int
    decreases s,
{
    if s <= 0 {
        0
    } else {
        sum_mid_lens(bs, s - 1) + bs[s - 1]@.len()
    }
}

pub open spec fn valid_mid(sections: ArpaFileSections<Vec<u32>>, s: int, k: int) -> bool {
    0 <= s < sections.backoffs@.len() && 0 <= k < sections.backoffs@[s]@.len()
}

pub open spec fn valid_long(sections: ArpaFileSections<Vec<u32>>, k: int) -> bool {
    0 <= k < sections.no_backoff@.len()
}

/// No two records of the model share one byte key.
pub open spec fn distinct_keys(sections: ArpaFileSections<Vec<u32>>) -> bool {
    &&& forall|s1: int, k1: int, s2: int, k2: int|
        valid_mid(sections, s1, k1) && valid_mid(sections, s2, k2) && (s1 != s2 || k1 != k2)
            ==> #[trigger] mid_key(sections, s1, k1) != #[trigger] mid_key(sections, s2, k2)
    &&& forall|s1: int, k1: int, k2: int|
        valid_mid(sections, s1, k1) && valid_long(sections, k2) ==> #[trigger] mid_key(
            sections,
            s1,
            k1,
        ) != #[trigger] long_key(sections, k2)
    &&& forall|k1: int, k2: int|
        valid_long(sections, k1) && valid_long(sections, k2) && k1 != k2 ==> #[trigger] long_key(
            sections,
            k1,
        ) != #[trigger] long_key(sections, k2)
}

/// Every record's n-gram has as many words as its section's order.
pub open spec fn sections_shaped(sections: ArpaFileSections<Vec<u32>>) -> bool {
    &&& sections.counts.wf()
    &&& sections.backoffs@.len() == sections.counts.spec_order() - 1
    &&& forall|s: int, k: int|
        valid_mid(sections, s, k) ==> (#[trigger] sections.backoffs@[s]@[k]).ngram.0@.len() == s + 1
    &&& forall|k: int|
        valid_long(sections, k) ==> (#[trigger] sections.no_backoff@[k]).ngram.0@.len()
            == sections.counts.spec_order()
}

/// The key and record belong to some record of the model.
pub open spec fn entry_of(sections: ArpaFileSections<Vec<u32>>, key: Seq<u8>, rec: Scores) -> bool {
    ||| exists|s: int, k: int|
        valid_mid(sections, s, k) && #[trigger] mid_key(sections, s, k) == key && mid_rec(
            sections,
            s,
            k,
        ) == rec
    ||| exists|k: int|
        valid_long(sections, k) && #[trigger] long_key(sections, k) == key && long_rec(sections, k)
            == rec
}

/// As `entry_of`, restricted to records before the middle position
/// `(bs, bk)` in build order.
pub open spec fn entry_before_mid(
    sections: ArpaFileSections<Vec<u32>>,
    bs: int,
    bk: int,
    key: Seq<u8>,
    rec: Scores,
) -> bool {
    exists|s: int, k: int|
        valid_mid(sections, s, k) && (s < bs || (s == bs && k < bk)) && #[trigger] mid_key(
            sections,
            s,
            k,
        ) == key && mid_rec(sections, s, k) == rec
}

/// As `entry_of`, restricted to every middle record and the highest
/// order records before `bk`.
pub open spec fn entry_before_long(
    sections: ArpaFileSections<Vec<u32>>,
    bk: int,
    key: Seq<u8>,
    rec: Scores,
) -> bool {
    ||| exists|s: int, k: int|
        valid_mid(sections, s, k) && #[trigger] mid_key(sections, s, k) == key && mid_rec(
            sections,
            s,
            k,
        ) == rec
    ||| exists|k: int|
        valid_long(sections, k) && k < bk && #[trigger] long_key(sections, k) == key && long_rec(
            sections,
            k,
        ) == rec
}

impl FstIndexer {
    /// The key-value contents of the automaton.
    pub open spec fn contents(self) -> Map<Seq<u8>, u64> {
        fst_contents(self.fst)
    }

    /// Every stored key indexes a score record; keys are whole word
    /// chunks, at most `order` of them, and a key of exactly `order`
    /// words holds a highest order record, shorter keys a backoff one.
    pub open spec fn wf(self) -> bool {
        &&& self.order >= 1
        &&& forall|key: Seq<u8>| #[trigger]
            self.contents().dom().contains(key) ==> {
                &&& self.contents()[key] < self.scores@.len()
                &&& key.len() % 4 == 0
                &&& 4 <= key.len() <= 4 * self.order
                &&& (key.len() == 4 * self.order <==> self.scores@[self.contents()[key] as int] is Longest)
            }
    }

    /// Compiles the parsed sections into one index: each record's
    /// reversed byte key maps to its score record.
    pub fn new(sections: ArpaFileSections<Vec<u32>>) -> (r: FstIndexer)
        requires
            sections_shaped(sections),
            distinct_keys(sections),
        ensures
            r.wf(),
            r.order == sections.counts.spec_order(),
            forall|s: int, k: int|
                valid_mid(sections, s, k) ==> {
                    &&& r.contents().dom().contains(#[trigger] mid_key(sections, s, k))
                    &&& r.contents()[mid_key(sections, s, k)] < r.scores@.len()
                    &&& r.scores@[r.contents()[mid_key(sections, s, k)] as int] == mid_rec(
                        sections,
                        s,
                        k,
                    )
                },
            forall|k: int|
                valid_long(sections, k) ==> {
                    &&& r.contents().dom().contains(#[trigger] long_key(sections, k))
                    &&& r.contents()[long_key(sections, k)] < r.scores@.len()
                    &&& r.scores@[r.contents()[long_key(sections, k)] as int] == long_rec(
                        sections,
                        k,
                    )
                },
            forall|key: Seq<u8>| #[trigger]
                r.contents().dom().contains(key) ==> entry_of(
                    sections,
                    key,
                    r.scores@[r.contents()[key] as int],
                ),
            r.scores@.len() == sum_mid_lens(sections.backoffs@, sections.backoffs@.len() as int)
                + sections.no_backoff@.len(),
    {
        let order: usize = sections.counts.order();
        let mut scores: Vec<Scores> = Vec::new();
        let mut pairs: Vec<(Vec<u8>, u64)> = Vec::new();
        let mut s: usize = 0;
        while s < sections.backoffs.len()
            invariant
                sections_shaped(sections),
                distinct_keys(sections),
                0 <= s <= sections.backoffs@.len(),
                pairs@.len() == scores@.len(),
                scores@.len() == sum_mid_lens(sections.backoffs@, s as int),
                forall|s2: int, k2: int|
                    valid_mid(sections, s2, k2) && s2 < s ==> exists|m: int|
                        0 <= m < pairs@.len() && (#[trigger] pairs@[m]).0@ == mid_key(
                            sections,
                            s2,
                            k2,
                        ) && pairs@[m].1 < scores@.len() && scores@[pairs@[m].1 as int] == mid_rec(
                            sections,
                            s2,
                            k2,
                        ),
                forall|m: int|
                    0 <= m < pairs@.len() ==> (#[trigger] pairs@[m]).1 < scores@.len()
                        && entry_before_mid(
                        sections,
                        s as int,
                        0,
                        pairs@[m].0@,
                        scores@[pairs@[m].1 as int],
                    ),
                forall|m1: int, m2: int|
                    0 <= m1 < m2 < pairs@.len() ==> (#[trigger] pairs@[m1]).0@ != (
                    #[trigger] pairs@[m2]).0@,
            decreases sections.backoffs@.len() - s,
        {
            let mut k: usize = 0;
            while k < sections.backoffs[s].len()
                invariant
                    sections_shaped(sections),
                    distinct_keys(sections),
                    0 <= s < sections.backoffs@.len(),
                    0 <= k <= sections.backoffs@[s as int]@.len(),
                    pairs@.len() == scores@.len(),
                    scores@.len() == sum_mid_lens(sections.backoffs@, s as int) + k,
                    forall|s2: int, k2: int|
                        valid_mid(sections, s2, k2) && (s2 < s || (s2 == s && k2 < k)) ==> exists|
                            m: int,
                        |
                            0 <= m < pairs@.len() && (#[trigger] pairs@[m]).0@ == mid_key(
                                sections,
                                s2,
                                k2,
                            ) && pairs@[m].1 < scores@.len() && scores@[pairs@[m].1 as int]
                                == mid_rec(sections, s2, k2),
                    forall|m: int|
                        0 <= m < pairs@.len() ==> (#[trigger] pairs@[m]).1 < scores@.len()
                            && entry_before_mid(
                            sections,
                            s as int,
                            k as int,
                            pairs@[m].0@,
                            scores@[pairs@[m].1 as int],
                        ),
                    forall|m1: int, m2: int|
                        0 <= m1 < m2 < pairs@.len() ==> (#[trigger] pairs@[m1]).0@ != (
                        #[trigger] pairs@[m2]).0@,
                decreases sections.backoffs@[s as int]@.len() - k,
            {
                let key: Vec<u8> = vec_into_bytes(&sections.backoffs[s][k].ngram.0);
                let rec: Scores = clone_score(
                    &Scores::Middle(
                        ProbBackoff {
                            log_prob: sections.backoffs[s][k].prob_backoff.log_prob.clone(),
                            backoff: sections.backoffs[s][k].prob_backoff.backoff.clone(),
                        },
                    ),
                );
                assert(rec == mid_rec(sections, s as int, k as int));
                assert(key@ == mid_key(sections, s as int, k as int));
                let v: usize = scores.len();
                let ghost old_pairs = pairs@;
                let ghost old_scores = scores@;
                scores.push(rec);
                pairs.push((key, v as u64));
                proof {
                    assert(pairs@[pairs@.len() - 1].0@ == mid_key(sections, s as int, k as int));
                    assert(scores@[v as int] == mid_rec(sections, s as int, k as int));
                    assert forall|m1: int, m2: int|
                        0 <= m1 < m2 < pairs@.len() implies (#[trigger] pairs@[m1]).0@ != (
                    #[trigger] pairs@[m2]).0@ by {
                        if m2 == pairs@.len() - 1 {
                            assert(entry_before_mid(
                                sections,
                                s as int,
                                k as int,
                                old_pairs[m1].0@,
                                old_scores[old_pairs[m1].1 as int],
                            ));
                        }
                    }
                    assert forall|s2: int, k2: int|
                        valid_mid(sections, s2, k2) && (s2 < s || (s2 == s && k2 < k + 1)) implies
                        exists|m: int|
                            0 <= m < pairs@.len() && (#[trigger] pairs@[m]).0@ == mid_key(
                                sections,
                                s2,
                                k2,
                            ) && pairs@[m].1 < scores@.len() && scores@[pairs@[m].1 as int]
                                == mid_rec(sections, s2, k2) by {
                        if s2 == s && k2 == k {
                            assert(0 <= pairs@.len() - 1 < pairs@.len() && pairs@[pairs@.len()
                                - 1].0@ == mid_key(sections, s2, k2) && pairs@[pairs@.len() - 1].1
                                < scores@.len() && scores@[pairs@[pairs@.len() - 1].1 as int]
                                == mid_rec(sections, s2, k2));
                        } else {
                            let m0 = choose|m0: int|
                                0 <= m0 < old_pairs.len() && (#[trigger] old_pairs[m0]).0@
                                    == mid_key(sections, s2, k2) && old_pairs[m0].1
                                    < old_scores.len() && old_scores[old_pairs[m0].1 as int]
                                    == mid_rec(sections, s2, k2);
                            assert(pairs@[m0] == old_pairs[m0]);
                            assert(scores@[old_pairs[m0].1 as int] == old_scores[old_pairs[m0].1 as int]);
                        }
                    }
                }
                k += 1;
            }
            s += 1;
        }
        let ghost nmid = pairs@.len();
        let mut k: usize = 0;
        while k < sections.no_backoff.len()
            invariant
                sections_shaped(sections),
                distinct_keys(sections),
                0 <= k <= sections.no_backoff@.len(),
                pairs@.len() == scores@.len(),
                scores@.len() == sum_mid_lens(
                    sections.backoffs@,
                    sections.backoffs@.len() as int,
                ) + k,
                forall|s2: int, k2: int|
                    valid_mid(sections, s2, k2) ==> exists|m: int|
                        0 <= m < pairs@.len() && (#[trigger] pairs@[m]).0@ == mid_key(
                            sections,
                            s2,
                            k2,
                        ) && pairs@[m].1 < scores@.len() && scores@[pairs@[m].1 as int] == mid_rec(
                            sections,
                            s2,
                            k2,
                        ),
                forall|k2: int|
                    valid_long(sections, k2) && k2 < k ==> exists|m: int|
                        0 <= m < pairs@.len() && (#[trigger] pairs@[m]).0@ == long_key(
                            sections,
                            k2,
                        ) && pairs@[m].1 < scores@.len() && scores@[pairs@[m].1 as int] == long_rec(
                            sections,
                            k2,
                        ),
                forall|m: int|
                    0 <= m < pairs@.len() ==> (#[trigger] pairs@[m]).1 < scores@.len()
                        && entry_before_long(
                        sections,
                        k as int,
                        pairs@[m].0@,
                        scores@[pairs@[m].1 as int],
                    ),
                forall|m1: int, m2: int|
                    0 <= m1 < m2 < pairs@.len() ==> (#[trigger] pairs@[m1]).0@ != (
                    #[trigger] pairs@[m2]).0@,
            decreases sections.no_backoff@.len() - k,
        {
            let key: Vec<u8> = vec_into_bytes(&sections.no_backoff[k].ngram.0);
            let rec: Scores = Scores::Longest(sections.no_backoff[k].prob.clone());
            assert(rec == long_rec(sections, k as int));
            assert(key@ == long_key(sections, k as int));
            let v: usize = scores.len();
            let ghost old_pairs = pairs@;
            let ghost old_scores = scores@;
            scores.push(rec);
            pairs.push((key, v as u64));
            proof {
                assert(pairs@[pairs@.len() - 1].0@ == long_key(sections, k as int));
                assert(scores@[v as int] == long_rec(sections, k as int));
                assert forall|m1: int, m2: int|
                    0 <= m1 < m2 < pairs@.len() implies (#[trigger] pairs@[m1]).0@ != (
                #[trigger] pairs@[m2]).0@ by {
                    if m2 == pairs@.len() - 1 {
                        assert(entry_before_long(
                            sections,
                            k as int,
                            old_pairs[m1].0@,
                            old_scores[old_pairs[m1].1 as int],
                        ));
                    }
                }
                assert forall|s2: int, k2: int| valid_mid(sections, s2, k2) implies exists|m: int|
                    0 <= m < pairs@.len() && (#[trigger] pairs@[m]).0@ == mid_key(
                        sections,
                        s2,
                        k2,
                    ) && pairs@[m].1 < scores@.len() && scores@[pairs@[m].1 as int] == mid_rec(
                        sections,
                        s2,
                        k2,
                    ) by {
                    let m0 = choose|m0: int|
                        0 <= m0 < old_pairs.len() && (#[trigger] old_pairs[m0]).0@ == mid_key(
                            sections,
                            s2,
                            k2,
                        ) && old_pairs[m0].1 < old_scores.len() && old_scores[old_pairs[m0].1 as int]
                            == mid_rec(sections, s2, k2);
                    assert(pairs@[m0] == old_pairs[m0]);
                    assert(scores@[old_pairs[m0].1 as int] == old_scores[old_pairs[m0].1 as int]);
                }
                assert forall|k2: int| valid_long(sections, k2) && k2 < k + 1 implies exists|m: int|
                    0 <= m < pairs@.len() && (#[trigger] pairs@[m]).0@ == long_key(
                        sections,
                        k2,
                    ) && pairs@[m].1 < scores@.len() && scores@[pairs@[m].1 as int] == long_rec(
                        sections,
                        k2,
                    ) by {
                    if k2 == k {
                        assert(0 <= pairs@.len() - 1 < pairs@.len() && pairs@[pairs@.len() - 1].0@
                            == long_key(sections, k2) && pairs@[pairs@.len() - 1].1 < scores@.len()
                            && scores@[pairs@[pairs@.len() - 1].1 as int] == long_rec(
                            sections,
                            k2,
                        ));
                    } else {
                        let m0 = choose|m0: int|
                            0 <= m0 < old_pairs.len() && (#[trigger] old_pairs[m0]).0@ == long_key(
                                sections,
                                k2,
                            ) && old_pairs[m0].1 < old_scores.len() && old_scores[old_pairs[m0].1 as int]
                                == long_rec(sections, k2);
                        assert(pairs@[m0] == old_pairs[m0]);
                        assert(scores@[old_pairs[m0].1 as int] == old_scores[old_pairs[m0].1 as int]);
                    }
                }
            }
            k += 1;
        }
        let ghost final_pairs = pairs@;
        let sorted = sort_pairs(pairs);
        let m = fst_from_sorted(sorted);
        let ghost c = fst_contents(m);
        proof {
            assert forall|s2: int, k2: int| valid_mid(sections, s2, k2) implies {
                &&& c.dom().contains(#[trigger] mid_key(sections, s2, k2))
                &&& c[mid_key(sections, s2, k2)] < scores@.len()
                &&& scores@[c[mid_key(sections, s2, k2)] as int] == mid_rec(sections, s2, k2)
            } by {
                let m0 = choose|m0: int|
                    0 <= m0 < final_pairs.len() && (#[trigger] final_pairs[m0]).0@ == mid_key(
                        sections,
                        s2,
                        k2,
                    ) && final_pairs[m0].1 < scores@.len() && scores@[final_pairs[m0].1 as int]
                        == mid_rec(sections, s2, k2);
                assert(pair_in(final_pairs[m0], sorted@));
                let j = choose|j: int|
                    0 <= j < sorted@.len() && pair_view(final_pairs[m0]) == pair_view(
                        #[trigger] sorted@[j],
                    );
                assert(c.contains_pair(sorted@[j].0@, sorted@[j].1));
            }
            assert forall|k2: int| valid_long(sections, k2) implies {
                &&& c.dom().contains(#[trigger] long_key(sections, k2))
                &&& c[long_key(sections, k2)] < scores@.len()
                &&& scores@[c[long_key(sections, k2)] as int] == long_rec(sections, k2)
            } by {
                let m0 = choose|m0: int|
                    0 <= m0 < final_pairs.len() && (#[trigger] final_pairs[m0]).0@ == long_key(
                        sections,
                        k2,
                    ) && final_pairs[m0].1 < scores@.len() && scores@[final_pairs[m0].1 as int]
                        == long_rec(sections, k2);
                assert(pair_in(final_pairs[m0], sorted@));
                let j = choose|j: int|
                    0 <= j < sorted@.len() && pair_view(final_pairs[m0]) == pair_view(
                        #[trigger] sorted@[j],
                    );
                assert(c.contains_pair(sorted@[j].0@, sorted@[j].1));
            }
            assert forall|key: Seq<u8>| #[trigger] c.dom().contains(key) implies {
                &&& c[key] < scores@.len()
                &&& entry_of(sections, key, scores@[c[key] as int])
            } by {
                let i = choose|i: int|
                    0 <= i < sorted@.len() && (#[trigger] sorted@[i]).0@ == key;
                assert(c.contains_pair(sorted@[i].0@, sorted@[i].1));
                assert(pair_in(sorted@[i], final_pairs));
                let m0 = choose|m0: int|
                    0 <= m0 < final_pairs.len() && pair_view(sorted@[i]) == pair_view(
                        #[trigger] final_pairs[m0],
                    );
                assert(entry_before_long(
                    sections,
                    sections.no_backoff@.len() as int,
                    final_pairs[m0].0@,
                    scores@[final_pairs[m0].1 as int],
                ));
            }
            assert forall|key: Seq<u8>| #[trigger] c.dom().contains(key) implies {
                &&& key.len() % 4 == 0
                &&& 4 <= key.len() <= 4 * order
                &&& (key.len() == 4 * order <==> scores@[c[key] as int] is Longest)
            } by {
                assert(entry_of(sections, key, scores@[c[key] as int]));
                if exists|s2: int, k2: int|
                    valid_mid(sections, s2, k2) && #[trigger] mid_key(sections, s2, k2) == key
                        && mid_rec(sections, s2, k2) == scores@[c[key] as int] {
                    let (s2, k2) = choose|s2: int, k2: int|
                        valid_mid(sections, s2, k2) && #[trigger] mid_key(sections, s2, k2) == key
                            && mid_rec(sections, s2, k2) == scores@[c[key] as int];
                    crate::ngram::lemma_rev_key_len(sections.backoffs@[s2]@[k2].ngram.0@);
                } else {
                    let k2 = choose|k2: int|
                        valid_long(sections, k2) && #[trigger] long_key(sections, k2) == key
                            && long_rec(sections, k2) == scores@[c[key] as int];
                    crate::ngram::lemma_rev_key_len(sections.no_backoff@[k2].ngram.0@);
                }
            }
        }
        FstIndexer { fst: m, scores, order }
    }
}

} // verus!

verus! {

/// The byte key of the `k` most recent words of `q`.
pub open spec fn suffix_key(q: Seq<u32>, k: int) -> Seq<u8> {
    rev_key(q.subrange(q.len() - k, q.len() as int))
}

/// The record ids the automaton walk finds for `q`, by increasing
/// suffix length from `k` on: the walk stops at the first suffix whose
/// bytes leave the automaton, and collects an id at every stored suffix.
pub open spec fn found_ids(c: Map<Seq<u8>, u64>, q: Seq<u32>, k: int) -> Seq<u64>
    decreases q.len() - k + 1,
    when 1 <= k
{
    if k > q.len() {
        Seq::empty()
    } else if !is_path(c, suffix_key(q, k)) {
        Seq::empty()
    } else if c.dom().contains(suffix_key(q, k)) {
        seq![c[suffix_key(q, k)]] + found_ids(c, q, k + 1)
    } else {
        found_ids(c, q, k + 1)
    }
}

proof fn lemma_found_ids_len(c: Map<Seq<u8>, u64>, q: Seq<u32>, k: int)
    requires
        1 <= k <= q.len() + 1,
    ensures
        found_ids(c, q, k).len() <= q.len() - k + 1,
    decreases q.len() - k + 1,
{
    if k <= q.len() {
        lemma_found_ids_len(c, q, k + 1);
    }
}

/// Appends the bytes of `chunk` to `key`.
fn extend_bytes(key: &mut Vec<u8>, chunk: Vec<u8>)
    ensures
        final(key)@ == old(key)@ + chunk@,
{
    let ghost prev = key@;
    let mut c: usize = 0;
    while c < chunk.len()
        invariant
            0 <= c <= chunk@.len(),
            key@ =~= prev + chunk@.subrange(0, c as int),
        decreases chunk@.len() - c,
    {
        key.push(chunk[c]);
        assert(key@ =~= prev + chunk@.subrange(0, c + 1));
        c += 1;
    }
    proof {
        assert(chunk@.subrange(0, chunk@.len() as int) =~= chunk@);
    }
}

impl FstIndexer {
    /// The records the walk finds from suffix length `k` on.
    pub open spec fn found_records_from(self, q: Seq<u32>, k: int) -> Seq<Scores> {
        found_ids(self.contents(), q, k).map_values(|id: u64| self.scores@[id as int])
    }

    /// The records found for a query, most specific last.
    pub open spec fn found_records(self, q: Seq<u32>) -> Seq<Scores> {
        self.found_records_from(q, 1)
    }

    /// Walks the automaton over the reversed byte key of `query`, one
    /// word chunk at a time, collecting the score record of every
    /// stored suffix until no longer suffix can match.
    pub fn find(&self, query: &Vec<u32>) -> (r: Vec<Scores>)
        requires
            self.wf(),
            1 <= query@.len(),
        ensures
            r@ == self.found_records(query@),
            r@.len() <= query@.len(),
    {
        let ghost c = self.contents();
        let ghost q = query@;
        let n: usize = query.len();
        let mut out: Vec<Scores> = Vec::new();
        let ghost mut ids: Seq<u64> = Seq::empty();
        let mut key: Vec<u8> = Vec::new();
        let mut k: usize = 0;
        proof {
            assert(q.subrange(q.len() as int, q.len() as int) =~= Seq::<u32>::empty());
            assert(key@ =~= suffix_key(q, 0));
        }
        while k < n
            invariant_except_break
                self.wf(),
                c == self.contents(),
                q == query@,
                n == q.len(),
                1 <= n,
                0 <= k <= n,
                key@ == suffix_key(q, k as int),
                ids.len() == out@.len(),
                forall|i: int|
                    0 <= i < ids.len() ==> #[trigger] ids[i] < self.scores@.len() && out@[i]
                        == self.scores@[ids[i] as int],
                found_ids(c, q, 1) =~= ids + found_ids(c, q, k + 1),
            ensures
                ids.len() == out@.len(),
                forall|i: int|
                    0 <= i < ids.len() ==> #[trigger] ids[i] < self.scores@.len() && out@[i]
                        == self.scores@[ids[i] as int],
                found_ids(c, q, 1) =~= ids,
                c == self.contents(),
                q == query@,
            decreases n - k,
        {
            let w: u32 = query[n - 1 - k];
            let chunk = vstd::bytes::u32_to_le_bytes(w);
            extend_bytes(&mut key, chunk);
            proof {
                crate::ngram::lemma_rev_key_unsnoc(q, n - 1 - k, n as int);
                assert(q.subrange(n - 1 - k, n as int) =~= q.subrange(q.len() - (k + 1), q.len() as int));
                assert(q.subrange(n - k, n as int) =~= q.subrange(q.len() - k, q.len() as int));
                assert(key@ =~= suffix_key(q, k + 1));
            }
            if !map_has_prefix(&self.fst, &key) {
                proof {
                    assert(found_ids(c, q, k + 1) =~= Seq::<u64>::empty());
                    assert(ids + Seq::<u64>::empty() =~= ids);
                }
                break ;
            }
            match fst_get(&self.fst, &key) {
                Some(id) => {
                    proof {
                        assert(c.dom().contains(key@));
                        assert(c[key@] < self.scores@.len());
                        assert(found_ids(c, q, k + 1) =~= seq![id] + found_ids(c, q, k + 2));
                    }
                    assert(id < self.scores@.len());
                    let slen: usize = self.scores.len();
                    assert((id as int) < (slen as int));
                    let idu: usize = id as usize;
                    assert(idu as int == id as int);
                    let sc = clone_score(&self.scores[idu]);
                    assert(sc == self.scores@[id as int]);
                    out.push(sc);
                    proof {
                        ids = ids.push(id);
                        assert(found_ids(c, q, 1) =~= ids + found_ids(c, q, k + 2));
                        assert(out@[ids.len() - 1] == self.scores@[ids[ids.len() - 1] as int]);
                    }
                },
                None => {
                    proof {
                        assert(found_ids(c, q, k + 1) =~= found_ids(c, q, k + 2));
                    }
                },
            }
            k += 1;
        }
        proof {
            lemma_found_ids_len(c, q, 1);
            assert(out@ =~= self.found_records(q));
        }
        out
    }
}

/// The backoff tokens of the backoff-carrying records of `rs`, in
/// order; highest order records pay none.
pub open spec fn middles_backoffs(rs: Seq<Scores>) -> Seq<Seq<char>>
    decreases rs.len(),
{
    if rs.len() == 0 {
        Seq::empty()
    } else {
        middles_backoffs(rs.drop_last()) + (match rs.last() {
            Scores::Middle(pb) => seq![pb.backoff@],
            Scores::Longest(_) => Seq::empty(),
        })
    }
}

pub proof fn lemma_middles_backoffs_len(rs: Seq<Scores>)
    ensures
        middles_backoffs(rs).len() <= rs.len(),
    decreases rs.len(),
{
    if rs.len() > 0 {
        lemma_middles_backoffs_len(rs.drop_last());
    }
}

/// The score terms one step emits: the log probability of the most
/// specific match, plus the backoff of every more specific context
/// position that had to be discarded.
pub open spec fn step_terms(rs: Seq<Scores>, prev_backoffs: Seq<Seq<char>>) -> Seq<Seq<char>> {
    if rs.len() == 0 {
        Seq::empty()
    } else {
        seq![rs.last().spec_score()] + (if rs.len() - 1 <= prev_backoffs.len() {
            prev_backoffs.skip(rs.len() - 1)
        } else {
            Seq::empty()
        })
    }
}

/// The bounded context a scoring sequence carries between steps: the
/// most recent matched words, their backoff tokens, and every score
/// term emitted so far; cloning it lets a caller branch a sequence.
#[derive(Debug, Clone)]
pub struct State {
    pub words: Vec<u32>,
    pub ngram_length: usize,
    pub backoffs: Vec<String>,
    pub score_terms: Vec<String>,
}

impl State {
    /// The window always holds exactly the matched context, fewer than
    /// `order` words.
    pub open spec fn wf(self, order: int) -> bool {
        &&& self.words@.len() == self.ngram_length
        &&& self.backoffs@.len() == self.ngram_length
        &&& self.ngram_length < order
    }
}

impl Default for State {
    /// The empty context: no words, no backoffs, no emitted terms.
    fn default() -> (r: State)
        ensures
            r.words@.len() == 0,
            r.ngram_length == 0,
            r.backoffs@.len() == 0,
            r.score_terms@.len() == 0,
    {
        State { words: Vec::new(), ngram_length: 0, backoffs: Vec::new(), score_terms: Vec::new() }
    }
}

} // verus!

verus! {

/// Backoff collection distributes over concatenation.
pub proof fn lemma_middles_concat(s1: Seq<Scores>, s2: Seq<Scores>)
    ensures
        middles_backoffs(s1 + s2) =~= middles_backoffs(s1) + middles_backoffs(s2),
    decreases s2.len(),
{
    if s2.len() == 0 {
        assert(s1 + s2 =~= s1);
    } else {
        lemma_middles_concat(s1, s2.drop_last());
        assert((s1 + s2).drop_last() =~= s1 + s2.drop_last());
        assert((s1 + s2).last() == s2.last());
    }
}

/// The number of backoff-carrying matches is bounded by the query
/// length, and never reaches the model order: a full-order match is a
/// highest order record and pays no backoff.
proof fn lemma_middles_found_bound(idx: FstIndexer, q: Seq<u32>, k: int)
    requires
        idx.wf(),
        1 <= k <= q.len() + 1,
        1 <= q.len() <= idx.order,
    ensures
        ({
            let b = if q.len() < idx.order {
                q.len() as int
            } else {
                idx.order - 1
            };
            middles_backoffs(idx.found_records_from(q, k)).len() <= if b - k + 1 >= 0 {
                b - k + 1
            } else {
                0
            }
        }),
    decreases q.len() - k + 1,
{
    let c = idx.contents();
    if k > q.len() {
        assert(found_ids(c, q, k) =~= Seq::<u64>::empty());
        assert(idx.found_records_from(q, k) =~= Seq::<Scores>::empty());
    } else {
        lemma_middles_found_bound(idx, q, k + 1);
        if is_path(c, suffix_key(q, k)) {
            if c.dom().contains(suffix_key(q, k)) {
                let id = c[suffix_key(q, k)];
                let rec = idx.scores@[id as int];
                let rest = idx.found_records_from(q, k + 1);
                assert(found_ids(c, q, k) =~= seq![id] + found_ids(c, q, k + 1));
                assert(idx.found_records_from(q, k) =~= seq![rec] + rest) by {
                    assert(found_ids(c, q, k)[0] == id);
                    assert(forall|m: int|
                        0 <= m < found_ids(c, q, k + 1).len() ==> found_ids(c, q, k)[m + 1]
                            == #[trigger] found_ids(c, q, k + 1)[m]);
                }
                lemma_middles_concat(seq![rec], rest);
                assert(q.subrange(q.len() - k, q.len() as int).len() == k);
                crate::ngram::lemma_rev_key_len(q.subrange(q.len() - k, q.len() as int));
                assert(suffix_key(q, k).len() == 4 * k);
                let one = seq![rec];
                assert(one.drop_last() =~= Seq::<Scores>::empty());
                assert(one.last() == rec);
                assert(middles_backoffs(one.drop_last()) =~= Seq::<Seq<char>>::empty());
                assert(middles_backoffs(one) =~= middles_backoffs(one.drop_last()) + (
                match one.last() {
                    Scores::Middle(pb) => seq![pb.backoff@],
                    Scores::Longest(_) => Seq::<Seq<char>>::empty(),
                }));
                if k == idx.order {
                    assert(suffix_key(q, k).len() == 4 * idx.order);
                    assert(rec is Longest);
                    assert(middles_backoffs(one) =~= Seq::<Seq<char>>::empty());
                } else {
                    assert(middles_backoffs(one).len() <= 1);
                }
            } else {
                assert(idx.found_records_from(q, k) =~= idx.found_records_from(q, k + 1)) by {
                    assert(found_ids(c, q, k) =~= found_ids(c, q, k + 1));
                }
            }
        } else {
            assert(found_ids(c, q, k) =~= Seq::<u64>::empty());
            assert(idx.found_records_from(q, k) =~= Seq::<Scores>::empty());
        }
    }
}

impl FstIndexer {
    /// Scores one more word: looks up the longest stored suffix of the
    /// context plus the new word, emits its log probability plus the
    /// backoff of every discarded more specific context position, and
    /// shifts the bounded context window to the matched words.
    pub fn find_with_state(&self, state: State, new_word: u32) -> (out: State)
        requires
            self.wf(),
            state.wf(self.order as int),
        ensures
            ({
                let q = state.words@ + seq![new_word];
                let rs = self.found_records(q);
                &&& out.wf(self.order as int)
                &&& out.backoffs.deep_view() == middles_backoffs(rs)
                &&& out.ngram_length == middles_backoffs(rs).len()
                &&& out.words@ == q.subrange(
                    q.len() - middles_backoffs(rs).len(),
                    q.len() as int,
                )
                &&& out.score_terms.deep_view() == state.score_terms.deep_view() + step_terms(
                    rs,
                    state.backoffs.deep_view(),
                )
            }),
    {
        let State { words, ngram_length, backoffs, score_terms } = state;
        let mut query: Vec<u32> = words;
        query.push(new_word);
        let ghost q = query@;
        proof {
            assert(q =~= state.words@ + seq![new_word]);
        }
        let r = self.find(&query);
        let ghost rs = r@;
        let mut out_backoffs: Vec<String> = Vec::new();
        let mut i: usize = 0;
        while i < r.len()
            invariant
                0 <= i <= rs.len(),
                rs == r@,
                out_backoffs.deep_view() =~~= middles_backoffs(rs.take(i as int)),
            decreases rs.len() - i,
        {
            let ghost prevb = out_backoffs.deep_view();
            match &r[i] {
                Scores::Middle(pb) => {
                    out_backoffs.push(pb.backoff.clone());
                    proof {
                        assert(out_backoffs.deep_view() =~~= prevb.push(pb.backoff@));
                    }
                },
                Scores::Longest(_) => {},
            }
            proof {
                assert(rs.take(i + 1).drop_last() =~= rs.take(i as int));
                assert(rs.take(i + 1).last() == rs[i as int]);
                assert(out_backoffs.deep_view() =~~= middles_backoffs(rs.take(i + 1)));
            }
            i += 1;
        }
        proof {
            assert(rs.take(rs.len() as int) =~= rs);
            lemma_middles_backoffs_len(rs);
            lemma_middles_found_bound(*self, q, 1);
        }
        let new_len: usize = out_backoffs.len();
        let start: usize = query.len() - new_len;
        let mut words_out: Vec<u32> = Vec::new();
        let mut j: usize = start;
        while j < query.len()
            invariant
                start <= j <= q.len(),
                q == query@,
                start == q.len() - new_len,
                new_len <= q.len(),
                words_out@ =~= q.subrange(start as int, j as int),
            decreases q.len() - j,
        {
            words_out.push(query[j]);
            assert(words_out@ =~= q.subrange(start as int, j + 1));
            j += 1;
        }
        let mut terms: Vec<String> = score_terms;
        let ghost terms0 = terms.deep_view();
        if r.len() > 0 {
            let base: String = r[r.len() - 1].score();
            proof {
                assert(rs.last() == rs[rs.len() - 1]);
            }
            terms.push(base);
            let ghost after_base = terms.deep_view();
            proof {
                assert(after_base =~~= terms0.push(rs.last().spec_score()));
            }
            let skip_n: usize = r.len() - 1;
            if skip_n <= backoffs.len() {
                let mut t: usize = skip_n;
                while t < backoffs.len()
                    invariant
                        skip_n <= t <= backoffs@.len(),
                        terms.deep_view() =~~= after_base + backoffs.deep_view().subrange(
                            skip_n as int,
                            t as int,
                        ),
                    decreases backoffs@.len() - t,
                {
                    let ghost prevt = terms.deep_view();
                    terms.push(backoffs[t].clone());
                    proof {
                        assert(backoffs@[t as int]@ == backoffs.deep_view()[t as int]);
                        assert(terms.deep_view() =~~= prevt.push(backoffs.deep_view()[t as int]));
                        assert(terms.deep_view() =~~= after_base + backoffs.deep_view().subrange(
                            skip_n as int,
                            t + 1,
                        ));
                    }
                    t += 1;
                }
                proof {
                    assert(backoffs.deep_view().subrange(
                        skip_n as int,
                        backoffs@.len() as int,
                    ) =~~= backoffs.deep_view().skip(skip_n as int));
                    assert(terms.deep_view() =~~= terms0 + step_terms(
                        rs,
                        state.backoffs.deep_view(),
                    ));
                }
            } else {
                proof {
                    assert(terms.deep_view() =~~= terms0 + step_terms(
                        rs,
                        state.backoffs.deep_view(),
                    ));
                }
            }
        } else {
            proof {
                assert(terms.deep_view() =~~= terms0 + step_terms(rs, state.backoffs.deep_view()));
            }
        }
        State { words: words_out, ngram_length: new_len, backoffs: out_backoffs, score_terms: terms }
    }
}

/// An index that can score a query directly or drive an incremental
/// context state.
pub trait NGramIndexer<T> {
    /// The index is ready for queries.
    spec fn index_ok(&self) -> bool;

    /// The state fits this index.
    spec fn state_ok(&self, state: State) -> bool;

    fn find(&self, middle: T) -> Vec<Scores>
        requires
            self.index_ok(),
    ;

    fn find_with_state(&self, state: State, new_word: u32) -> (r: State)
        requires
            self.index_ok(),
            self.state_ok(state),
        ensures
            self.state_ok(r),
    ;
}

impl NGramIndexer<Vec<u32>> for FstIndexer {
    open spec fn index_ok(&self) -> bool {
        self.wf() && self.order >= 1
    }

    open spec fn state_ok(&self, state: State) -> bool {
        state.wf(self.order as int)
    }

    fn find(&self, middle: Vec<u32>) -> Vec<Scores> {
        if middle.len() == 0 {
            return Vec::new();
        }
        FstIndexer::find(self, &middle)
    }

    fn find_with_state(&self, state: State, new_word: u32) -> (r: State) {
        FstIndexer::find_with_state(self, state, new_word)
    }
}

} // verus!

verus! {

/// When every suffix length in `k..=ll` is stored and nothing beyond
/// `ll` matches, the walk finds exactly one record per length, the
/// `ll`-word match last.
proof fn lemma_found_upto(c: Map<Seq<u8>, u64>, q: Seq<u32>, k: int, ll: int)
    requires
        1 <= k <= ll <= q.len(),
        forall|j: int| k <= j <= ll ==> c.dom().contains(#[trigger] suffix_key(q, j)),
        found_ids(c, q, ll + 1) =~= Seq::<u64>::empty(),
    ensures
        found_ids(c, q, k).len() == ll - k + 1,
        found_ids(c, q, k).last() == c[suffix_key(q, ll)],
    decreases ll - k,
{
    assert(is_path(c, suffix_key(q, k))) by {
        assert(c.dom().contains(suffix_key(q, k)));
        assert(suffix_key(q, k).is_prefix_of(suffix_key(q, k)));
    }
    if k == ll {
        assert(found_ids(c, q, k) =~= seq![c[suffix_key(q, k)]] + found_ids(c, q, k + 1));
        assert(found_ids(c, q, k) =~= seq![c[suffix_key(q, k)]]);
    } else {
        lemma_found_upto(c, q, k + 1, ll);
        assert(found_ids(c, q, k) =~= seq![c[suffix_key(q, k)]] + found_ids(c, q, k + 1));
        assert(found_ids(c, q, k).last() == found_ids(c, q, k + 1).last());
    }
}

/// Exact match idempotence: when the context window plus the new word
/// is a stored n-gram, and so is every shorter suffix of it, the step
/// emits exactly the stored record's log probability and pays no
/// backoff.
pub proof fn lemma_exact_match_score(idx: FstIndexer, st: State, w: u32)
    requires
        idx.wf(),
        st.wf(idx.order as int),
        forall|j: int|
            1 <= j <= st.words@.len() + 1 ==> idx.contents().dom().contains(
                #[trigger] suffix_key(st.words@ + seq![w], j),
            ),
    ensures
        ({
            let q = st.words@ + seq![w];
            let rs = idx.found_records(q);
            step_terms(rs, st.backoffs.deep_view()) =~~= seq![
                idx.scores@[idx.contents()[suffix_key(q, q.len() as int)] as int].spec_score(),
            ]
        }),
{
    let q = st.words@ + seq![w];
    let c = idx.contents();
    let n = q.len() as int;
    assert(found_ids(c, q, n + 1) =~= Seq::<u64>::empty());
    lemma_found_upto(c, q, 1, n);
    let ids = found_ids(c, q, 1);
    let rs = idx.found_records(q);
    assert(rs.len() == n);
    assert(rs.last() == idx.scores@[ids.last() as int]) by {
        assert(rs[n - 1] == idx.scores@[ids[n - 1] as int]);
    }
    assert(st.backoffs.deep_view().len() == st.backoffs@.len());
    assert(rs.len() - 1 == st.backoffs.deep_view().len());
    assert(st.backoffs.deep_view().skip(st.backoffs.deep_view().len() as int)
        =~= Seq::<Seq<char>>::empty());
    assert(step_terms(rs, st.backoffs.deep_view()) =~~= seq![rs.last().spec_score()]);
}

/// Backoff composition: when the longest stored match is exactly one
/// word shorter than the context window plus the new word, the step
/// emits the matched record's log probability plus the backoff of every
/// discarded more specific context position.
pub proof fn lemma_backoff_composition(idx: FstIndexer, st: State, w: u32)
    requires
        idx.wf(),
        st.wf(idx.order as int),
        st.words@.len() >= 1,
        forall|j: int|
            1 <= j <= st.words@.len() ==> idx.contents().dom().contains(
                #[trigger] suffix_key(st.words@ + seq![w], j),
            ),
        !idx.contents().dom().contains(
            suffix_key(st.words@ + seq![w], st.words@.len() + 1 as int),
        ),
    ensures
        ({
            let q = st.words@ + seq![w];
            let ll = st.words@.len() as int;
            let rs = idx.found_records(q);
            step_terms(rs, st.backoffs.deep_view()) =~~= seq![
                idx.scores@[idx.contents()[suffix_key(q, ll)] as int].spec_score(),
            ] + st.backoffs.deep_view().skip(ll - 1)
        }),
{
    let q = st.words@ + seq![w];
    let c = idx.contents();
    let n = q.len() as int;
    let ll = st.words@.len() as int;
    assert(n == ll + 1);
    assert(found_ids(c, q, n + 1) =~= Seq::<u64>::empty());
    assert(found_ids(c, q, ll + 1) =~= Seq::<u64>::empty()) by {
        if is_path(c, suffix_key(q, ll + 1)) {
            assert(found_ids(c, q, ll + 1) =~= found_ids(c, q, ll + 2));
        }
    }
    lemma_found_upto(c, q, 1, ll);
    let ids = found_ids(c, q, 1);
    let rs = idx.found_records(q);
    assert(rs.len() == ll);
    assert(rs.last() == idx.scores@[ids.last() as int]) by {
        assert(rs[ll - 1] == idx.scores@[ids[ll - 1] as int]);
    }
    assert(st.backoffs.deep_view().len() == st.backoffs@.len());
    assert(rs.len() - 1 <= st.backoffs.deep_view().len());
    assert(step_terms(rs, st.backoffs.deep_view()) =~~= seq![rs.last().spec_score()]
        + st.backoffs.deep_view().skip(ll - 1));
}

} // verus!

verus! {

/// Build order over middle record positions.
pub open spec fn mid_before(s1: int, k1: int, s2: int, k2: int) -> bool {
    s1 < s2 || (s1 == s2 && k1 < k2)
}

/// Exec byte-wise equality of keys.
fn bytes_eq(a: &Vec<u8>, b: &Vec<u8>) -> (r: bool)
    ensures
        r == (a@ == b@),
{
    if a.len() != b.len() {
        return false;
    }
    let p = bytes_prefix_of(a, b);
    proof {
        if p {
            assert(a@ =~= b@);
        }
    }
    p
}

/// Checks the shape the index builder asks for: well formed counts and
/// one word per section order in every record.
fn sections_shape_ok(sections: &ArpaFileSections<Vec<u32>>) -> (r: bool)
    ensures
        r == sections_shaped(*sections),
{
        let ncounts: usize = sections.counts.counts().len();
        if ncounts == 0 {
            assert(!sections.counts.wf());
            return false;
        }
        let mut ci: usize = 0;
        while ci < ncounts
            invariant
                0 <= ci <= ncounts,
                1 <= ncounts == sections.counts.spec_counts().len(),
                forall|m: int|
                    0 <= m < ci ==> (#[trigger] sections.counts.spec_counts()[m]).order == m + 1,
            decreases ncounts - ci,
        {
            if sections.counts.counts()[ci].order != ci + 1 {
                assert(!sections.counts.wf());
                return false;
            }
            ci += 1;
        }
        assert(sections.counts.wf());
        if sections.backoffs.len() != ncounts - 1 {
            assert(!sections_shaped(*sections));
            return false;
        }
        let nsec: usize = sections.backoffs.len();
        let mut s: usize = 0;
        while s < nsec
            invariant
                0 <= s <= nsec,
                nsec == sections.backoffs@.len(),
                forall|s2: int, k2: int|
                    valid_mid(*sections, s2, k2) && s2 < s ==> (
                    #[trigger] sections.backoffs@[s2]@[k2]).ngram.0@.len() == s2 + 1,
            decreases nsec - s,
        {
            let mut k: usize = 0;
            let slen: usize = sections.backoffs[s].len();
            while k < slen
                invariant
                    0 <= k <= slen,
                    0 <= s < nsec,
                    nsec == sections.backoffs@.len(),
                    slen == sections.backoffs@[s as int]@.len(),
                    forall|k2: int|
                        0 <= k2 < k ==> (#[trigger] sections.backoffs@[s as int]@[k2]).ngram.0@.len()
                            == s + 1,
                decreases slen - k,
            {
                if sections.backoffs[s][k].ngram.0.len() != s + 1 {
                    assert(!sections_shaped(*sections));
                    return false;
                }
                k += 1;
            }
            s += 1;
        }
        let nlong: usize = sections.no_backoff.len();
        let mut k: usize = 0;
        while k < nlong
            invariant
                0 <= k <= nlong,
                nlong == sections.no_backoff@.len(),
                ncounts == sections.counts.spec_counts().len(),
                forall|k2: int|
                    0 <= k2 < k ==> (#[trigger] sections.no_backoff@[k2]).ngram.0@.len()
                        == ncounts,
            decreases nlong - k,
        {
            if sections.no_backoff[k].ngram.0.len() != ncounts {
                assert(!sections_shaped(*sections));
                return false;
            }
            k += 1;
        }
        assert(sections_shaped(*sections));
        true
}

/// The key list holds the byte key of this middle record.
pub open spec fn seen_has_mid(
    seen: Seq<Seq<u8>>,
    sections: ArpaFileSections<Vec<u32>>,
    s1: int,
    k1: int,
) -> bool {
    exists|m: int| 0 <= m < seen.len() && #[trigger] seen[m] == mid_key(sections, s1, k1)
}

/// The key list holds the byte key of this highest order record.
pub open spec fn seen_has_long(
    seen: Seq<Seq<u8>>,
    sections: ArpaFileSections<Vec<u32>>,
    k1: int,
) -> bool {
    exists|m: int| 0 <= m < seen.len() && #[trigger] seen[m] == long_key(sections, k1)
}

/// The key list entry comes from a middle record before `(bs, bk)` in
/// build order.
pub open spec fn seen_from_mid(
    seen: Seq<Seq<u8>>,
    sections: ArpaFileSections<Vec<u32>>,
    m: int,
    bs: int,
    bk: int,
) -> bool {
    exists|s1: int, k1: int|
        valid_mid(sections, s1, k1) && mid_before(s1, k1, bs, bk) && seen[m] == #[trigger] mid_key(
            sections,
            s1,
            k1,
        )
}

/// The key list entry comes from a highest order record before `bk`.
pub open spec fn seen_from_long(
    seen: Seq<Seq<u8>>,
    sections: ArpaFileSections<Vec<u32>>,
    m: int,
    bk: int,
) -> bool {
    exists|k1: int|
        valid_long(sections, k1) && k1 < bk && seen[m] == #[trigger] long_key(sections, k1)
}

/// Two middle records at distinct positions have distinct keys, for
/// every pair before `(bs, bk)`.
pub open spec fn mids_distinct_upto(
    sections: ArpaFileSections<Vec<u32>>,
    bs: int,
    bk: int,
) -> bool {
    forall|s1: int, k1: int, s2: int, k2: int|
        valid_mid(sections, s1, k1) && valid_mid(sections, s2, k2) && mid_before(s1, k1, s2, k2)
            && mid_before(s2, k2, bs, bk) ==> #[trigger] mid_key(sections, s1, k1)
            != #[trigger] mid_key(sections, s2, k2)
}

/// Checks that no two records of the model share a byte key.
fn sections_keys_distinct(sections: &ArpaFileSections<Vec<u32>>) -> (r: bool)
    requires
        sections_shaped(*sections),
    ensures
        r == distinct_keys(*sections),
{
    let nsec: usize = sections.backoffs.len();
    let nlong: usize = sections.no_backoff.len();
    let mut seen: Vec<Vec<u8>> = Vec::new();
    let mut s: usize = 0;
    while s < nsec
        invariant
            sections_shaped(*sections),
            0 <= s <= nsec,
            nsec == sections.backoffs@.len(),
            forall|s1: int, k1: int|
                valid_mid(*sections, s1, k1) && mid_before(s1, k1, s as int, 0)
                    ==> #[trigger] seen_has_mid(seen.deep_view(), *sections, s1, k1),
            forall|m: int|
                0 <= m < seen.deep_view().len() ==> #[trigger] seen_from_mid(
                    seen.deep_view(),
                    *sections,
                    m,
                    s as int,
                    0,
                ),
            mids_distinct_upto(*sections, s as int, 0),
        decreases nsec - s,
    {
        let mut k: usize = 0;
        let slen: usize = sections.backoffs[s].len();
        proof {
            assert forall|s1: int, k1: int|
                valid_mid(*sections, s1, k1) && mid_before(
                    s1,
                    k1,
                    s as int,
                    0,
                ) implies #[trigger] seen_has_mid(seen.deep_view(), *sections, s1, k1) by {}
        }
        while k < slen
            invariant
                sections_shaped(*sections),
                0 <= k <= slen,
                0 <= s < nsec,
                nsec == sections.backoffs@.len(),
                slen == sections.backoffs@[s as int]@.len(),
                forall|s1: int, k1: int|
                    valid_mid(*sections, s1, k1) && mid_before(s1, k1, s as int, k as int)
                        ==> #[trigger] seen_has_mid(seen.deep_view(), *sections, s1, k1),
                forall|m: int|
                    0 <= m < seen.deep_view().len() ==> #[trigger] seen_from_mid(
                        seen.deep_view(),
                        *sections,
                        m,
                        s as int,
                        k as int,
                    ),
                mids_distinct_upto(*sections, s as int, k as int),
            decreases slen - k,
        {
            let key: Vec<u8> = vec_into_bytes(&sections.backoffs[s][k].ngram.0);
            assert(key@ == mid_key(*sections, s as int, k as int));
            let mut m: usize = 0;
            while m < seen.len()
                invariant_except_break
                    0 <= m <= seen.deep_view().len(),
                    key@ == mid_key(*sections, s as int, k as int),
                    forall|m2: int| 0 <= m2 < m ==> #[trigger] seen.deep_view()[m2] != key@,
                ensures
                    m < seen.deep_view().len() ==> seen.deep_view()[m as int] == key@,
                    m >= seen.deep_view().len() ==> forall|m2: int|
                        0 <= m2 < seen.deep_view().len() ==> #[trigger] seen.deep_view()[m2]
                            != key@,
                decreases seen.deep_view().len() - m,
            {
                if bytes_eq(&seen[m], &key) {
                    assert(seen@[m as int]@ == seen.deep_view()[m as int]);
                    break ;
                }
                assert(seen@[m as int]@ == seen.deep_view()[m as int]);
                m += 1;
            }
            if m < seen.len() {
                proof {
                    assert(seen_from_mid(seen.deep_view(), *sections, m as int, s as int, k as int));
                    let (s1, k1) = choose|s1: int, k1: int|
                        valid_mid(*sections, s1, k1) && mid_before(s1, k1, s as int, k as int)
                            && seen.deep_view()[m as int] == #[trigger] mid_key(*sections, s1, k1);
                    assert(mid_key(*sections, s1, k1) == mid_key(*sections, s as int, k as int));
                    assert(!distinct_keys(*sections));
                }
                return false;
            }
            let ghost prev_seen = seen.deep_view();
            seen.push(key);
            proof {
                assert(seen.deep_view() =~~= prev_seen.push(
                    mid_key(*sections, s as int, k as int),
                ));
                assert forall|s1: int, k1: int|
                    valid_mid(*sections, s1, k1) && mid_before(
                        s1,
                        k1,
                        s as int,
                        k as int + 1,
                    ) implies #[trigger] seen_has_mid(seen.deep_view(), *sections, s1, k1) by {
                    if s1 == s as int && k1 == k as int {
                        assert(seen.deep_view()[prev_seen.len() as int] == mid_key(
                            *sections,
                            s1,
                            k1,
                        ));
                    } else {
                        assert(mid_before(s1, k1, s as int, k as int));
                        assert(seen_has_mid(prev_seen, *sections, s1, k1));
                        let m0 = choose|m0: int|
                            0 <= m0 < prev_seen.len() && #[trigger] prev_seen[m0] == mid_key(
                                *sections,
                                s1,
                                k1,
                            );
                        assert(seen.deep_view()[m0] == mid_key(*sections, s1, k1));
                    }
                }
                assert forall|m2: int|
                    0 <= m2 < seen.deep_view().len() implies #[trigger] seen_from_mid(
                    seen.deep_view(),
                    *sections,
                    m2,
                    s as int,
                    k as int + 1,
                ) by {
                    if m2 == prev_seen.len() as int {
                        assert(mid_before(s as int, k as int, s as int, k as int + 1));
                        assert(seen.deep_view()[m2] == mid_key(*sections, s as int, k as int));
                    } else {
                        assert(seen_from_mid(prev_seen, *sections, m2, s as int, k as int));
                        let (s1, k1) = choose|s1: int, k1: int|
                            valid_mid(*sections, s1, k1) && mid_before(s1, k1, s as int, k as int)
                                && prev_seen[m2] == #[trigger] mid_key(*sections, s1, k1);
                        assert(mid_before(s1, k1, s as int, k as int + 1));
                        assert(seen.deep_view()[m2] == mid_key(*sections, s1, k1));
                    }
                }
                assert forall|s1: int, k1: int, s2: int, k2: int|
                    valid_mid(*sections, s1, k1) && valid_mid(*sections, s2, k2) && mid_before(
                        s1,
                        k1,
                        s2,
                        k2,
                    ) && mid_before(s2, k2, s as int, k as int + 1) implies #[trigger] mid_key(
                    *sections,
                    s1,
                    k1,
                ) != #[trigger] mid_key(*sections, s2, k2) by {
                    if s2 == s as int && k2 == k as int {
                        assert(mid_before(s1, k1, s as int, k as int));
                        assert(seen_has_mid(prev_seen, *sections, s1, k1));
                        let m0 = choose|m0: int|
                            0 <= m0 < prev_seen.len() && #[trigger] prev_seen[m0] == mid_key(
                                *sections,
                                s1,
                                k1,
                            );
                        assert(prev_seen[m0] != key@);
                    }
                }
            }
            k += 1;
        }
        proof {
            assert forall|s1: int, k1: int|
                valid_mid(*sections, s1, k1) && mid_before(
                    s1,
                    k1,
                    s as int + 1,
                    0,
                ) implies #[trigger] seen_has_mid(seen.deep_view(), *sections, s1, k1) by {
                assert(mid_before(s1, k1, s as int, slen as int));
            }
            assert forall|m2: int|
                0 <= m2 < seen.deep_view().len() implies #[trigger] seen_from_mid(
                seen.deep_view(),
                *sections,
                m2,
                s as int + 1,
                0,
            ) by {
                assert(seen_from_mid(seen.deep_view(), *sections, m2, s as int, slen as int));
                let (s1, k1) = choose|s1: int, k1: int|
                    valid_mid(*sections, s1, k1) && mid_before(s1, k1, s as int, slen as int)
                        && seen.deep_view()[m2] == #[trigger] mid_key(*sections, s1, k1);
                assert(mid_before(s1, k1, s as int + 1, 0));
            }
            assert forall|s1: int, k1: int, s2: int, k2: int|
                valid_mid(*sections, s1, k1) && valid_mid(*sections, s2, k2) && mid_before(
                    s1,
                    k1,
                    s2,
                    k2,
                ) && mid_before(s2, k2, s as int + 1, 0) implies #[trigger] mid_key(
                *sections,
                s1,
                k1,
            ) != #[trigger] mid_key(*sections, s2, k2) by {
                assert(mid_before(s2, k2, s as int, slen as int));
            }
        }
        s += 1;
    }
    let mut k: usize = 0;
    while k < nlong
        invariant
            sections_shaped(*sections),
            0 <= k <= nlong,
            nlong == sections.no_backoff@.len(),
            nsec == sections.backoffs@.len(),
            forall|s1: int, k1: int|
                valid_mid(*sections, s1, k1) ==> #[trigger] seen_has_mid(
                    seen.deep_view(),
                    *sections,
                    s1,
                    k1,
                ),
            forall|k1: int|
                valid_long(*sections, k1) && k1 < k ==> #[trigger] seen_has_long(
                    seen.deep_view(),
                    *sections,
                    k1,
                ),
            forall|m: int|
                0 <= m < seen.deep_view().len() ==> (#[trigger] seen_from_mid(
                    seen.deep_view(),
                    *sections,
                    m,
                    nsec as int,
                    0,
                ) || seen_from_long(seen.deep_view(), *sections, m, k as int)),
            mids_distinct_upto(*sections, nsec as int, 0),
            forall|s1: int, k1: int, k2: int|
                valid_mid(*sections, s1, k1) && valid_long(*sections, k2) && k2 < k
                    ==> #[trigger] mid_key(*sections, s1, k1) != #[trigger] long_key(
                    *sections,
                    k2,
                ),
            forall|k1: int, k2: int|
                valid_long(*sections, k1) && valid_long(*sections, k2) && k1 != k2 && k1 < k && k2
                    < k ==> #[trigger] long_key(*sections, k1) != #[trigger] long_key(
                    *sections,
                    k2,
                ),
        decreases nlong - k,
    {
        let key: Vec<u8> = vec_into_bytes(&sections.no_backoff[k].ngram.0);
        assert(key@ == long_key(*sections, k as int));
        let mut m: usize = 0;
        while m < seen.len()
            invariant_except_break
                0 <= m <= seen.deep_view().len(),
                key@ == long_key(*sections, k as int),
                forall|m2: int| 0 <= m2 < m ==> #[trigger] seen.deep_view()[m2] != key@,
            ensures
                m < seen.deep_view().len() ==> seen.deep_view()[m as int] == key@,
                m >= seen.deep_view().len() ==> forall|m2: int|
                    0 <= m2 < seen.deep_view().len() ==> #[trigger] seen.deep_view()[m2] != key@,
            decreases seen.deep_view().len() - m,
        {
            if bytes_eq(&seen[m], &key) {
                assert(seen@[m as int]@ == seen.deep_view()[m as int]);
                break ;
            }
            assert(seen@[m as int]@ == seen.deep_view()[m as int]);
            m += 1;
        }
        if m < seen.len() {
            proof {
                if seen_from_mid(seen.deep_view(), *sections, m as int, nsec as int, 0) {
                    let (s1, k1) = choose|s1: int, k1: int|
                        valid_mid(*sections, s1, k1) && mid_before(s1, k1, nsec as int, 0)
                            && seen.deep_view()[m as int] == #[trigger] mid_key(*sections, s1, k1);
                    assert(mid_key(*sections, s1, k1) == long_key(*sections, k as int));
                    assert(!distinct_keys(*sections));
                } else {
                    assert(seen_from_long(seen.deep_view(), *sections, m as int, k as int));
                    let k1 = choose|k1: int|
                        valid_long(*sections, k1) && k1 < k && seen.deep_view()[m as int]
                            == #[trigger] long_key(*sections, k1);
                    assert(long_key(*sections, k1) == long_key(*sections, k as int));
                    assert(!distinct_keys(*sections));
                }
            }
            return false;
        }
        let ghost prev_seen = seen.deep_view();
        seen.push(key);
        proof {
            assert(seen.deep_view() =~~= prev_seen.push(long_key(*sections, k as int)));
            assert forall|s1: int, k1: int|
                valid_mid(*sections, s1, k1) implies #[trigger] seen_has_mid(
                seen.deep_view(),
                *sections,
                s1,
                k1,
            ) by {
                assert(seen_has_mid(prev_seen, *sections, s1, k1));
                let m0 = choose|m0: int|
                    0 <= m0 < prev_seen.len() && #[trigger] prev_seen[m0] == mid_key(
                        *sections,
                        s1,
                        k1,
                    );
                assert(seen.deep_view()[m0] == mid_key(*sections, s1, k1));
            }
            assert forall|k1: int|
                valid_long(*sections, k1) && k1 < k + 1 implies #[trigger] seen_has_long(
                seen.deep_view(),
                *sections,
                k1,
            ) by {
                if k1 == k as int {
                    assert(seen.deep_view()[prev_seen.len() as int] == long_key(*sections, k1));
                } else {
                    assert(seen_has_long(prev_seen, *sections, k1));
                    let m0 = choose|m0: int|
                        0 <= m0 < prev_seen.len() && #[trigger] prev_seen[m0] == long_key(
                            *sections,
                            k1,
                        );
                    assert(seen.deep_view()[m0] == long_key(*sections, k1));
                }
            }
            assert forall|m2: int|
                0 <= m2 < seen.deep_view().len() implies (#[trigger] seen_from_mid(
                seen.deep_view(),
                *sections,
                m2,
                nsec as int,
                0,
            ) || seen_from_long(seen.deep_view(), *sections, m2, k as int + 1)) by {
                if m2 == prev_seen.len() as int {
                    assert(seen.deep_view()[m2] == long_key(*sections, k as int));
                    assert(seen_from_long(seen.deep_view(), *sections, m2, k as int + 1));
                } else {
                    assert(seen.deep_view()[m2] == prev_seen[m2]);
                    if seen_from_mid(prev_seen, *sections, m2, nsec as int, 0) {
                        let (s1, k1) = choose|s1: int, k1: int|
                            valid_mid(*sections, s1, k1) && mid_before(s1, k1, nsec as int, 0)
                                && prev_seen[m2] == #[trigger] mid_key(*sections, s1, k1);
                        assert(seen.deep_view()[m2] == mid_key(*sections, s1, k1));
                        assert(seen_from_mid(seen.deep_view(), *sections, m2, nsec as int, 0));
                    } else {
                        assert(seen_from_long(prev_seen, *sections, m2, k as int));
                        let k1 = choose|k1: int|
                            valid_long(*sections, k1) && k1 < k && prev_seen[m2]
                                == #[trigger] long_key(*sections, k1);
                        assert(seen.deep_view()[m2] == long_key(*sections, k1));
                        assert(seen_from_long(seen.deep_view(), *sections, m2, k as int + 1));
                    }
                }
            }
            assert forall|s1: int, k1: int, k2: int|
                valid_mid(*sections, s1, k1) && valid_long(*sections, k2) && k2 < k
                    + 1 implies #[trigger] mid_key(*sections, s1, k1) != #[trigger] long_key(
                *sections,
                k2,
            ) by {
                if k2 == k as int {
                    assert(seen_has_mid(prev_seen, *sections, s1, k1));
                    let m0 = choose|m0: int|
                        0 <= m0 < prev_seen.len() && #[trigger] prev_seen[m0] == mid_key(
                            *sections,
                            s1,
                            k1,
                        );
                    assert(prev_seen[m0] != key@);
                }
            }
            assert forall|k1: int, k2: int|
                valid_long(*sections, k1) && valid_long(*sections, k2) && k1 != k2 && k1 < k + 1
                    && k2 < k + 1 implies #[trigger] long_key(*sections, k1)
                    != #[trigger] long_key(*sections, k2) by {
                if k2 == k as int && k1 < k as int {
                    assert(seen_has_long(prev_seen, *sections, k1));
                    let m0 = choose|m0: int|
                        0 <= m0 < prev_seen.len() && #[trigger] prev_seen[m0] == long_key(
                            *sections,
                            k1,
                        );
                    assert(prev_seen[m0] != key@);
                } else if k1 == k as int && k2 < k as int {
                    assert(seen_has_long(prev_seen, *sections, k2));
                    let m0 = choose|m0: int|
                        0 <= m0 < prev_seen.len() && #[trigger] prev_seen[m0] == long_key(
                            *sections,
                            k2,
                        );
                    assert(prev_seen[m0] != key@);
                }
            }
        }
        k += 1;
    }
    proof {
        assert forall|s1: int, k1: int, s2: int, k2: int|
            valid_mid(*sections, s1, k1) && valid_mid(*sections, s2, k2) && (s1 != s2 || k1
                != k2) implies #[trigger] mid_key(*sections, s1, k1) != #[trigger] mid_key(
            *sections,
            s2,
            k2,
        ) by {
            if mid_before(s1, k1, s2, k2) {
                assert(mid_before(s2, k2, nsec as int, 0));
            } else {
                assert(mid_before(s2, k2, s1, k1));
                assert(mid_before(s1, k1, nsec as int, 0));
            }
        }
        assert(distinct_keys(*sections));
    }
    true
}

impl FstIndexer {
    /// Compiles the parsed sections after checking everything `new`
    /// asks for: well formed counts, one word per section order in
    /// every record, and no two records sharing a byte key; answers
    /// `None` exactly when one of those checks fails.
    pub fn try_new(sections: ArpaFileSections<Vec<u32>>) -> (r: Option<FstIndexer>)
        ensures
            r is Some <==> sections_shaped(sections) && distinct_keys(sections),
            r matches Some(ix) ==> {
                &&& ix.wf()
                &&& ix.order == sections.counts.spec_order()
                &&& forall|s: int, k: int|
                    valid_mid(sections, s, k) ==> {
                        &&& ix.contents().dom().contains(#[trigger] mid_key(sections, s, k))
                        &&& ix.contents()[mid_key(sections, s, k)] < ix.scores@.len()
                        &&& ix.scores@[ix.contents()[mid_key(sections, s, k)] as int] == mid_rec(
                            sections,
                            s,
                            k,
                        )
                    }
                &&& forall|k: int|
                    valid_long(sections, k) ==> {
                        &&& ix.contents().dom().contains(#[trigger] long_key(sections, k))
                        &&& ix.contents()[long_key(sections, k)] < ix.scores@.len()
                        &&& ix.scores@[ix.contents()[long_key(sections, k)] as int] == long_rec(
                            sections,
                            k,
                        )
                    }
            },
    {
        if !sections_shape_ok(&sections) {
            return None;
        }
        if !sections_keys_distinct(&sections) {
            return None;
        }
        Some(FstIndexer::new(sections))
    }
}


} // verus!

verus! {

/// A model closed under suffixes: whenever an n-gram of more than one
/// word is stored, so is the n-gram of its most recent words, one word
/// shorter (the key without its last word chunk).  Standard backoff
/// models have this shape, since every backoff weight belongs to a
/// stored lower order entry.
pub open spec fn suffix_closed(c: Map<Seq<u8>, u64>) -> bool {
    forall|k: Seq<u8>|
        #[trigger] c.dom().contains(k) && k.len() > 4 ==> c.dom().contains(
            k.take(k.len() - 4),
        )
}

/// In a suffix-closed model, every shorter recent-word suffix of a
/// stored n-gram is stored as well.
pub proof fn lemma_suffix_closed_all(c: Map<Seq<u8>, u64>, q: Seq<u32>, k: int)
    requires
        suffix_closed(c),
        1 <= k <= q.len(),
        c.dom().contains(suffix_key(q, k)),
    ensures
        forall|j: int| 1 <= j <= k ==> c.dom().contains(#[trigger] suffix_key(q, j)),
    decreases k,
{
    let n = q.len() as int;
    if k > 1 {
        assert(q.subrange(n - k, n).len() == k);
        crate::ngram::lemma_rev_key_len(q.subrange(n - k, n));
        crate::ngram::lemma_rev_key_len(q.subrange(n - (k - 1), n));
        crate::ngram::lemma_rev_key_unsnoc(q, n - k, n);
        assert(suffix_key(q, k).take(4 * (k - 1)) =~= suffix_key(q, k - 1));
        assert(c.dom().contains(suffix_key(q, k - 1)));
        lemma_suffix_closed_all(c, q, k - 1);
    }
}

/// Exact match idempotence for suffix-closed models: when the context
/// window plus the new word is stored verbatim, the step emits exactly
/// the stored record's log probability and pays no backoff.
pub proof fn lemma_exact_match_score_suffix_closed(idx: FstIndexer, st: State, w: u32)
    requires
        idx.wf(),
        st.wf(idx.order as int),
        suffix_closed(idx.contents()),
        idx.contents().dom().contains(
            suffix_key(st.words@ + seq![w], st.words@.len() + 1 as int),
        ),
    ensures
        ({
            let q = st.words@ + seq![w];
            let rs = idx.found_records(q);
            step_terms(rs, st.backoffs.deep_view()) =~~= seq![
                idx.scores@[idx.contents()[suffix_key(q, q.len() as int)] as int].spec_score(),
            ]
        }),
{
    let q = st.words@ + seq![w];
    lemma_suffix_closed_all(idx.contents(), q, q.len() as int);
    lemma_exact_match_score(idx, st, w);
}

/// Backoff composition for suffix-closed models: when the longest
/// stored match is one word shorter than the context window plus the
/// new word, the step emits the matched record's log probability plus
/// the backoff of every discarded more specific context position.
pub proof fn lemma_backoff_composition_suffix_closed(idx: FstIndexer, st: State, w: u32)
    requires
        idx.wf(),
        st.wf(idx.order as int),
        suffix_closed(idx.contents()),
        st.words@.len() >= 1,
        idx.contents().dom().contains(
            suffix_key(st.words@ + seq![w], st.words@.len() as int),
        ),
        !idx.contents().dom().contains(
            suffix_key(st.words@ + seq![w], st.words@.len() + 1 as int),
        ),
    ensures
        ({
            let q = st.words@ + seq![w];
            let ll = st.words@.len() as int;
            let rs = idx.found_records(q);
            step_terms(rs, st.backoffs.deep_view()) =~~= seq![
                idx.scores@[idx.contents()[suffix_key(q, ll)] as int].spec_score(),
            ] + st.backoffs.deep_view().skip(ll - 1)
        }),
{
    let q = st.words@ + seq![w];
    lemma_suffix_closed_all(idx.contents(), q, st.words@.len() as int);
    lemma_backoff_composition(idx, st, w);
}

} // verus!

verus! {

/// Every record of more than one word has its one-shorter recent-word
/// suffix (the n-gram without its oldest word) stored as a record of
/// the next lower order; standard backoff models have this shape.
pub open spec fn sections_suffix_closed(sections: ArpaFileSections<Vec<u32>>) -> bool {
    &&& forall|s: int, k: int|
        valid_mid(sections, s, k) && s >= 1 ==> exists|k2: int|
            valid_mid(sections, s - 1, k2) && (#[trigger] sections.backoffs@[s - 1]@[k2]).ngram.0@
                == sections.backoffs@[s]@[k].ngram.0@.skip(1)
    &&& forall|k: int|
        valid_long(sections, k) && sections.backoffs@.len() >= 1 ==> exists|k2: int|
            valid_mid(sections, sections.backoffs@.len() - 1, k2) && (
            #[trigger] sections.backoffs@[sections.backoffs@.len() - 1]@[k2]).ngram.0@
                == sections.no_backoff@[k].ngram.0@.skip(1)
}

/// Dropping the oldest word of a sequence keeps the leading bytes of
/// its key.
proof fn lemma_rev_key_skip_first(w: Seq<u32>)
    requires
        w.len() >= 1,
    ensures
        rev_key(w).take(4 * (w.len() - 1)) =~= rev_key(w.skip(1)),
{
    crate::ngram::lemma_rev_key_len(w);
    crate::ngram::lemma_rev_key_len(w.skip(1));
    crate::ngram::lemma_rev_key_unsnoc(w, 0, w.len() as int);
    assert(w.subrange(0, w.len() as int) =~= w);
    assert(w.subrange(1, w.len() as int) =~= w.skip(1));
}

/// An index compiled from suffix-closed sections is itself closed
/// under suffixes, so the scoring laws' hypotheses follow from a single
/// n-gram being stored.
pub proof fn lemma_index_suffix_closed(sections: ArpaFileSections<Vec<u32>>, ix: FstIndexer)
    requires
        sections_shaped(sections),
        sections_suffix_closed(sections),
        forall|s: int, k: int|
            valid_mid(sections, s, k) ==> ix.contents().dom().contains(
                #[trigger] mid_key(sections, s, k),
            ),
        forall|k: int|
            valid_long(sections, k) ==> ix.contents().dom().contains(
                #[trigger] long_key(sections, k),
            ),
        forall|key: Seq<u8>| #[trigger]
            ix.contents().dom().contains(key) ==> entry_of(
                sections,
                key,
                ix.scores@[ix.contents()[key] as int],
            ),
    ensures
        suffix_closed(ix.contents()),
{
    let c = ix.contents();
    assert forall|key: Seq<u8>| #[trigger] c.dom().contains(key) && key.len() > 4 implies c.dom().contains(
        key.take(key.len() - 4),
    ) by {
        assert(entry_of(sections, key, ix.scores@[c[key] as int]));
        if exists|s: int, k: int|
            valid_mid(sections, s, k) && #[trigger] mid_key(sections, s, k) == key && mid_rec(
                sections,
                s,
                k,
            ) == ix.scores@[c[key] as int] {
            let (s, k) = choose|s: int, k: int|
                valid_mid(sections, s, k) && #[trigger] mid_key(sections, s, k) == key && mid_rec(
                    sections,
                    s,
                    k,
                ) == ix.scores@[c[key] as int];
            let w = sections.backoffs@[s]@[k].ngram.0@;
            crate::ngram::lemma_rev_key_len(w);
            assert(w.len() == s + 1);
            assert(s >= 1);
            let k2 = choose|k2: int|
                valid_mid(sections, s - 1, k2) && (#[trigger] sections.backoffs@[s - 1]@[k2]).ngram.0@
                    == w.skip(1);
            lemma_rev_key_skip_first(w);
            assert(mid_key(sections, s - 1, k2) =~= key.take(key.len() - 4));
            assert(c.dom().contains(mid_key(sections, s - 1, k2)));
        } else {
            let k = choose|k: int|
                valid_long(sections, k) && #[trigger] long_key(sections, k) == key && long_rec(
                    sections,
                    k,
                ) == ix.scores@[c[key] as int];
            let w = sections.no_backoff@[k].ngram.0@;
            crate::ngram::lemma_rev_key_len(w);
            assert(w.len() == sections.counts.spec_order());
            assert(sections.backoffs@.len() >= 1);
            let k2 = choose|k2: int|
                valid_mid(sections, sections.backoffs@.len() - 1, k2) && (
                #[trigger] sections.backoffs@[sections.backoffs@.len() - 1]@[k2]).ngram.0@
                    == w.skip(1);
            lemma_rev_key_skip_first(w);
            assert(mid_key(sections, sections.backoffs@.len() - 1, k2) =~= key.take(
                key.len() - 4,
            ));
            assert(c.dom().contains(mid_key(sections, sections.backoffs@.len() - 1, k2)));
        }
    }
}

} // verus!
