//! N-gram records and their byte-key encoding.
//!
//! A token sequence is encoded for the index by writing each word as a
//! fixed chunk of bytes and concatenating the chunks in reverse token
//! order, so that a forward walk over the key visits the most recent
//! word first.

use vstd::prelude::*;
use vstd::bytes::{spec_u32_to_le_bytes, u32_to_le_bytes, lemma_auto_spec_u32_to_from_le_bytes};

use crate::text::spec_tokens;

verus! {

/// The byte key of a word-id sequence: little-endian word chunks in
/// reverse token order, most recent word first.
pub open spec fn rev_key(ws: Seq<u32>) -> Seq<u8>
    decreases ws.len(),
{
    if ws.len() == 0 {
        Seq::empty()
    } else {
        spec_u32_to_le_bytes(ws.last()) + rev_key(ws.drop_last())
    }
}

pub proof fn lemma_rev_key_len(ws: Seq<u32>)
    ensures
        rev_key(ws).len() == 4 * ws.len(),
    decreases ws.len(),
{
    lemma_auto_spec_u32_to_from_le_bytes();
    if ws.len() > 0 {
        lemma_rev_key_len(ws.drop_last());
    }
}

/// Peeling the oldest word off the front of a sequence removes the last
/// chunk of its key.
pub proof fn lemma_rev_key_unsnoc(s: Seq<u32>, a: int, b: int)
    requires
        0 <= a < b <= s.len(),
    ensures
        rev_key(s.subrange(a, b)) =~= rev_key(s.subrange(a + 1, b)) + spec_u32_to_le_bytes(s[a]),
    decreases b - a,
{
    if a + 1 == b {
        assert(s.subrange(a, b).last() == s[a]);
        assert(s.subrange(a, b).drop_last() =~= s.subrange(a + 1, b));
    } else {
        lemma_rev_key_unsnoc(s, a, b - 1);
        assert(s.subrange(a, b).drop_last() =~= s.subrange(a, b - 1));
        assert(s.subrange(a + 1, b).drop_last() =~= s.subrange(a + 1, b - 1));
        assert(s.subrange(a, b).last() == s[b - 1]);
        assert(s.subrange(a + 1, b).last() == s[b - 1]);
    }
}

/// Encodes word ids as index key bytes: little-endian chunks, last word
/// first.
pub fn vec_into_bytes(v: &Vec<u32>) -> (r: Vec<u8>)
    ensures
        r@ == rev_key(v@),
{
    let n: usize = v.len();
    let mut out: Vec<u8> = Vec::new();
    let mut j: usize = n;
    while j > 0
        invariant
            0 <= j <= n,
            n == v@.len(),
            out@ =~= rev_key(v@.subrange(j as int, n as int)),
        decreases j,
    {
        let chunk: Vec<u8> = u32_to_le_bytes(v[j - 1]);
        let ghost prev = out@;
        let mut c: usize = 0;
        while c < chunk.len()
            invariant
                0 <= c <= chunk.len(),
                out@ =~= prev + chunk@.subrange(0, c as int),
            decreases chunk.len() - c,
        {
            out.push(chunk[c]);
            assert(out@ =~= prev + chunk@.subrange(0, c + 1));
            c += 1;
        }
        proof {
            assert(chunk@.subrange(0, chunk@.len() as int) =~= chunk@);
            lemma_rev_key_unsnoc(v@, j - 1, n as int);
        }
        j -= 1;
    }
    proof {
        assert(v@.subrange(0, n as int) =~= v@);
    }
    out
}

/// A token sequence that can be turned into index key bytes.
pub trait ToByteVec {
    /// One byte chunk per word, in the order the key concatenates them.
    spec fn spec_chunks(&self) -> Seq<Seq<u8>>;

    fn to_word_chunks(&self) -> (r: Vec<Vec<u8>>)
        ensures
            r.deep_view() == self.spec_chunks(),
    ;

    fn to_bytes(&self) -> (r: Vec<u8>)
        ensures
            r@ == self.spec_chunks().flatten(),
    ;
}

/// Marker for token representations the index can hold.
pub trait NGramRep: ToByteVec {

}

impl ToByteVec for Vec<u32> {
    /// Chunks in reverse token order, as the key encoding asks.
    open spec fn spec_chunks(&self) -> Seq<Seq<u8>> {
        Seq::new(self@.len(), |i: int| spec_u32_to_le_bytes(self@[self@.len() - 1 - i]))
    }

    fn to_word_chunks(&self) -> (r: Vec<Vec<u8>>)
        ensures
            r.deep_view() == self.spec_chunks(),
    {
        let n: usize = self.len();
        let mut out: Vec<Vec<u8>> = Vec::new();
        let mut j: usize = n;
        while j > 0
            invariant
                0 <= j <= n,
                n == self@.len(),
                out.deep_view() =~~= self.spec_chunks().take(n - j),
            decreases j,
        {
            let ghost prev = out.deep_view();
            out.push(u32_to_le_bytes(self[j - 1]));
            proof {
                assert(out.deep_view() =~~= prev.push(spec_u32_to_le_bytes(self@[j - 1])));
                assert(out.deep_view() =~~= self.spec_chunks().take(n - j + 1));
            }
            j -= 1;
        }
        proof {
            assert(self.spec_chunks().take(n as int) =~~= self.spec_chunks());
        }
        out
    }

    fn to_bytes(&self) -> (r: Vec<u8>)
        ensures
            r@ == self.spec_chunks().flatten(),
    {
        let r = vec_into_bytes(self);
        proof {
            lemma_rev_key_is_flatten(self@);
        }
        r
    }
}

/// The key of a word sequence equals its chunk list flattened.
pub proof fn lemma_rev_key_is_flatten(ws: Seq<u32>)
    ensures
        rev_key(ws) =~= Seq::new(ws.len(), |i: int| spec_u32_to_le_bytes(ws[ws.len() - 1 - i])).flatten(),
    decreases ws.len(),
{
    let chunks = Seq::new(ws.len(), |i: int| spec_u32_to_le_bytes(ws[ws.len() - 1 - i]));
    if ws.len() > 0 {
        lemma_rev_key_is_flatten(ws.drop_last());
        let tail_chunks = Seq::new(
            ws.drop_last().len(),
            |i: int| spec_u32_to_le_bytes(ws.drop_last()[ws.drop_last().len() - 1 - i]),
        );
        assert(chunks.drop_first() =~= tail_chunks);
        assert(chunks.flatten() =~= chunks.first() + chunks.drop_first().flatten());
    }
}

impl NGramRep for Vec<u32> {

}

impl ToByteVec for String {
    /// One chunk per whitespace-separated token, each character taken as
    /// one byte, in reverse token order as the key encoding asks.
    open spec fn spec_chunks(&self) -> Seq<Seq<u8>> {
        let ts = spec_tokens(self@);
        Seq::new(ts.len(), |i: int| ts[ts.len() - 1 - i].map_values(|c: char| c as u8))
    }

    fn to_word_chunks(&self) -> (r: Vec<Vec<u8>>)
        ensures
            r.deep_view() == self.spec_chunks(),
    {
        let toks: Vec<String> = crate::text::split_ascii_ws(self.as_str());
        let n: usize = toks.len();
        let mut out: Vec<Vec<u8>> = Vec::new();
        let mut j: usize = n;
        while j > 0
            invariant
                0 <= j <= n,
                n == toks@.len(),
                toks.deep_view() == spec_tokens(self@),
                out.deep_view() =~~= self.spec_chunks().take(n - j),
            decreases j,
        {
            let t: &String = &toks[j - 1];
            let m: usize = t.as_str().unicode_len();
            let mut chunk: Vec<u8> = Vec::new();
            let mut c: usize = 0;
            while c < m
                invariant
                    0 <= c <= m,
                    m == t@.len(),
                    chunk@ =~= t@.map_values(|ch: char| ch as u8).take(c as int),
                decreases m - c,
            {
                chunk.push(#[verifier::truncate] (t.as_str().get_char(c) as u8));
                assert(chunk@ =~= t@.map_values(|ch: char| ch as u8).take(c + 1));
                c += 1;
            }
            let ghost prev = out.deep_view();
            proof {
                assert(chunk@ =~= t@.map_values(|ch: char| ch as u8));
                assert(toks.deep_view()[j - 1] == t@);
            }
            out.push(chunk);
            proof {
                assert(out.deep_view() =~~= prev.push(t@.map_values(|ch: char| ch as u8)));
                assert(out.deep_view() =~~= self.spec_chunks().take(n - j + 1));
            }
            j -= 1;
        }
        proof {
            assert(self.spec_chunks().take(n as int) =~~= self.spec_chunks());
        }
        out
    }

    fn to_bytes(&self) -> (r: Vec<u8>)
        ensures
            r@ == self.spec_chunks().flatten(),
    {
        let chunks = self.to_word_chunks();
        flatten_chunks(chunks)
    }
}

impl NGramRep for String {

}

impl ToByteVec for () {
    open spec fn spec_chunks(&self) -> Seq<Seq<u8>> {
        Seq::empty()
    }

    fn to_word_chunks(&self) -> (r: Vec<Vec<u8>>)
        ensures
            r.deep_view() == self.spec_chunks(),
    {
        let r: Vec<Vec<u8>> = Vec::new();
        proof {
            assert(r.deep_view() =~~= Seq::<Seq<u8>>::empty());
        }
        r
    }

    fn to_bytes(&self) -> (r: Vec<u8>)
        ensures
            r@ == self.spec_chunks().flatten(),
    {
        let r: Vec<u8> = Vec::new();
        proof {
            assert(Seq::<Seq<u8>>::empty().flatten() =~= Seq::<u8>::empty());
        }
        r
    }
}

impl NGramRep for () {

}

/// Concatenates byte chunks in order.
pub fn flatten_chunks(chunks: Vec<Vec<u8>>) -> (r: Vec<u8>)
    ensures
        r@ == chunks.deep_view().flatten(),
{
    let mut out: Vec<u8> = Vec::new();
    let mut i: usize = 0;
    while i < chunks.len()
        invariant
            0 <= i <= chunks.len(),
            out@ =~= chunks.deep_view().take(i as int).flatten(),
        decreases chunks.len() - i,
    {
        let ghost prev = out@;
        let chunk: &Vec<u8> = &chunks[i];
        let mut c: usize = 0;
        while c < chunk.len()
            invariant
                0 <= c <= chunk@.len(),
                out@ =~= prev + chunk@.subrange(0, c as int),
            decreases chunk@.len() - c,
        {
            out.push(chunk[c]);
            assert(out@ =~= prev + chunk@.subrange(0, c + 1));
            c += 1;
        }
        proof {
            assert(chunk@.subrange(0, chunk@.len() as int) =~= chunk@);
            assert(chunks.deep_view()[i as int] == chunk@);
            lemma_flatten_snoc(chunks.deep_view(), i as int);
        }
        i += 1;
    }
    proof {
        assert(chunks.deep_view().take(chunks@.len() as int) =~~= chunks.deep_view());
    }
    out
}

/// Flattening one more chunk appends its bytes.
pub proof fn lemma_flatten_snoc(ss: Seq<Seq<u8>>, i: int)
    requires
        0 <= i < ss.len(),
    ensures
        ss.take(i + 1).flatten() =~= ss.take(i).flatten() + ss[i],
    decreases i,
{
    if i == 0 {
        assert(ss.take(1) =~= seq![ss[0]]);
        assert(seq![ss[0]].flatten() =~= ss[0] + Seq::<Seq<u8>>::empty().flatten());
        assert(ss.take(0).flatten() =~= Seq::<u8>::empty());
    } else {
        lemma_flatten_snoc(ss.drop_first(), i - 1);
        assert(ss.take(i + 1).drop_first() =~= ss.drop_first().take(i));
        assert(ss.take(i).drop_first() =~= ss.drop_first().take(i - 1));
        assert(ss.take(i + 1).flatten() =~= ss[0] + ss.take(i + 1).drop_first().flatten());
        assert(ss.take(i).flatten() =~= ss[0] + ss.take(i).drop_first().flatten());
        assert(ss.drop_first()[i - 1] == ss[i]);
    }
}

/// A log probability together with its backoff penalty, both kept as
/// the decimal text tokens the model file holds.
#[derive(Debug, Clone, PartialEq, Eq)]
pub struct ProbBackoff {
    pub log_prob: String,
    pub backoff: String,
}

/// An ordered token sequence, generic over token representation.
#[derive(Debug, Clone, PartialEq, Eq)]
pub struct NGram<T: NGramRep>(pub T);

/// An n-gram of a lower order section: log probability and backoff.
#[derive(Debug, Clone, PartialEq, Eq)]
pub struct ProbBackoffNgram<T: NGramRep> {
    pub ngram: NGram<T>,
    pub prob_backoff: ProbBackoff,
}

/// An n-gram of the highest order section: log probability only.
#[derive(Debug, Clone, PartialEq, Eq)]
pub struct ProbNgram<T: NGramRep> {
    pub ngram: NGram<T>,
    pub prob: String,
}

} // verus!

verus! {

/// A value that exposes its n-gram word ids.
pub trait AsNgram {
    spec fn spec_ngram(&self) -> Seq<u32>;

    fn as_ngram(&self) -> (r: &Vec<u32>)
        ensures
            r@ == self.spec_ngram(),
    ;
}

/// An n-gram in id space with a log probability and a backoff token.
#[derive(Debug, Clone, PartialEq, Eq)]
pub struct NgramWithProbBackoff {
    pub ngram: Vec<u32>,
    pub log_prob: String,
    pub backoff: String,
}

/// An n-gram in id space with only a log probability token.
#[derive(Debug, Clone, PartialEq, Eq)]
pub struct NgramWithProb {
    pub ngram: Vec<u32>,
    pub log_prob: String,
}

impl AsNgram for NgramWithProb {
    open spec fn spec_ngram(&self) -> Seq<u32> {
        self.ngram@
    }

    fn as_ngram(&self) -> (r: &Vec<u32>)
        ensures
            r@ == self.spec_ngram(),
    {
        &self.ngram
    }
}

impl AsNgram for NgramWithProbBackoff {
    open spec fn spec_ngram(&self) -> Seq<u32> {
        self.ngram@
    }

    fn as_ngram(&self) -> (r: &Vec<u32>)
        ensures
            r@ == self.spec_ngram(),
    {
        &self.ngram
    }
}

} // verus!
