//! The fixed binary headers in front of a compiled model: the sanity
//! record, the fixed width parameter record, and the per-order counts,
//! all validated on plain bytes handed in by the caller.

use vstd::prelude::*;
use vstd::bytes::{spec_u32_from_le_bytes, spec_u64_from_le_bytes, u32_from_le_bytes, u64_from_le_bytes};
use vstd::slice::slice_subrange;

use crate::counts::{Counts, NGramCardinality};
use crate::Error;

verus! {

/// The sanity record occupies this many leading bytes.
pub const SANITY_HEADER_BYTES: usize = 88;

/// The fixed width parameter record occupies this many bytes, padding
/// to natural alignment included.
pub const FIXED_PARAMS_BYTES: usize = 20;

/// Rounds a positive size up to the next multiple of eight.
pub fn align8(size: usize) -> (r: usize)
    requires
        1 <= size,
        size + 7 <= usize::MAX,
    ensures
        r == ((size - 1) / 8 + 1) * 8,
        r % 8 == 0,
        r >= size,
{
    let r = ((size - 1) / 8 + 1) * 8;
    proof {
        assert(r >= size) by (nonlinear_arith)
            requires
                r == ((size - 1) / 8 + 1) * 8,
                size >= 1,
        ;
        assert(r % 8 == 0) by (nonlinear_arith)
            requires
                r == ((size - 1) / 8 + 1) * 8,
        ;
    }
    r
}

/// The number of bytes in front of a compiled model of the given
/// order: both fixed records plus one eight-byte count per order,
/// aligned to eight bytes.
pub fn total_header_size(order: usize) -> (r: usize)
    requires
        8 * order + 115 <= usize::MAX,
    ensures
        r == ((88 + 20 + 8 * order - 1) / 8 + 1) * 8,
{
    align8(SANITY_HEADER_BYTES + FIXED_PARAMS_BYTES + order * 8)
}

/// The reference sanity bytes: the magic line padded to an eight byte
/// boundary, the float constants zero, one and minus one half in
/// little-endian bits, the word index constants one and the largest
/// index, and a trailing eight byte one.
pub open spec fn spec_sanity_reference() -> Seq<u8> {
    "mmap lm http://kheafield.com/code format version 5\n\u{0}"@.map_values(|c: char| c as u8)
        + seq![0u8, 0u8, 0u8, 0u8]  // padding to 56
        + seq![0u8, 0u8, 0u8, 0u8]  // 0.0f32
        + seq![0u8, 0u8, 0x80u8, 0x3fu8]  // 1.0f32
        + seq![0u8, 0u8, 0u8, 0xbfu8]  // -0.5f32
        + seq![1u8, 0u8, 0u8, 0u8]  // word index 1
        + seq![0xffu8, 0xffu8, 0xffu8, 0xffu8]  // largest word index
        + seq![0u8, 0u8, 0u8, 0u8]  // padding to an eight byte boundary
        + seq![1u8, 0u8, 0u8, 0u8, 0u8, 0u8, 0u8, 0u8]  // u64 1
}

/// Builds the reference sanity record.
pub fn sanity_reference() -> (r: Vec<u8>)
    ensures
        r@ == spec_sanity_reference(),
        r@.len() == SANITY_HEADER_BYTES,
{
    let magic = "mmap lm http://kheafield.com/code format version 5\n\u{0}";
    proof {
        reveal_strlit("mmap lm http://kheafield.com/code format version 5\n\u{0}");
    }
    let ghost mseq = magic@.map_values(|c: char| c as u8);
    let n: usize = magic.unicode_len();
    let mut out: Vec<u8> = Vec::new();
    let mut i: usize = 0;
    while i < n
        invariant
            0 <= i <= n,
            n == magic@.len(),
            mseq == magic@.map_values(|c: char| c as u8),
            out@ =~= mseq.take(i as int),
        decreases n - i,
    {
        out.push(#[verifier::truncate] (magic.get_char(i) as u8));
        assert(out@ =~= mseq.take(i + 1));
        i += 1;
    }
    proof {
        assert(out@ =~= mseq);
        assert(mseq.len() == 52);
    }
    out.push(0);
    out.push(0);
    out.push(0);
    out.push(0);
    out.push(0);
    out.push(0);
    out.push(0);
    out.push(0);
    out.push(0);
    out.push(0);
    out.push(0x80);
    out.push(0x3f);
    out.push(0);
    out.push(0);
    out.push(0);
    out.push(0xbf);
    out.push(1);
    out.push(0);
    out.push(0);
    out.push(0);
    out.push(0xff);
    out.push(0xff);
    out.push(0xff);
    out.push(0xff);
    out.push(0);
    out.push(0);
    out.push(0);
    out.push(0);
    out.push(1);
    out.push(0);
    out.push(0);
    out.push(0);
    out.push(0);
    out.push(0);
    out.push(0);
    out.push(0);
    proof {
        assert(out@ =~= spec_sanity_reference());
    }
    out
}

/// The leading sanity record of a compiled model, as raw bytes.
#[derive(Debug, PartialEq, Eq)]
pub struct Sanity {
    pub bytes: Vec<u8>,
}

impl Sanity {
    /// Takes the sanity record off the front of the model bytes.
    pub fn from_bytes(data: &Vec<u8>) -> (r: Result<Sanity, Error>)
        ensures
            data@.len() >= SANITY_HEADER_BYTES ==> (r matches Ok(s) && s.bytes@ == data@.take(
                SANITY_HEADER_BYTES as int,
            )),
            data@.len() < SANITY_HEADER_BYTES ==> (r matches Err(e) && e is SanityFormatError),
    {
        if data.len() < SANITY_HEADER_BYTES {
            return Err(Error::SanityFormatError);
        }
        let mut bytes: Vec<u8> = Vec::new();
        let mut i: usize = 0;
        while i < SANITY_HEADER_BYTES
            invariant
                0 <= i <= SANITY_HEADER_BYTES <= data@.len(),
                bytes@ =~= data@.take(i as int),
            decreases SANITY_HEADER_BYTES - i,
        {
            bytes.push(data[i]);
            assert(bytes@ =~= data@.take(i + 1));
            i += 1;
        }
        Ok(Sanity { bytes })
    }

    /// Whether this record matches the reference byte for byte.
    pub fn matches_reference(&self) -> (r: bool)
        ensures
            r == (self.bytes@ =~= spec_sanity_reference()),
    {
        let reference = sanity_reference();
        if self.bytes.len() != reference.len() {
            return false;
        }
        let mut i: usize = 0;
        while i < reference.len()
            invariant
                0 <= i <= reference@.len(),
                self.bytes@.len() == reference@.len(),
                reference@ == spec_sanity_reference(),
                forall|m: int| 0 <= m < i ==> self.bytes@[m] == reference@[m],
            decreases reference@.len() - i,
        {
            if self.bytes[i] != reference[i] {
                return false;
            }
            i += 1;
        }
        true
    }
}

/// The fixed width parameter record of a compiled model; the probing
/// multiplier is kept as its little-endian float bits.
#[derive(Debug, Clone, Copy, PartialEq, Eq, Structural)]
pub struct FixedParameters {
    /// Order of the model.
    pub order: u8,
    /// Probing multiplier for the probing storage layout, as raw
    /// little-endian float bits.
    pub probing_multiplier: u32,
    /// The storage layout of the model.
    pub model_type: u32,
    /// Whether the compiled model stores a vocabulary.
    pub has_vocabulary: u8,
    /// Version of the search structure.
    pub search_version: u32,
}

impl FixedParameters {
    /// Decodes the record from the bytes that follow the sanity record:
    /// the order byte, three padding bytes, then three little-endian
    /// words with one more padded byte among them.
    pub fn from_bytes(data: &Vec<u8>) -> (r: Result<FixedParameters, Error>)
        ensures
            data@.len() >= FIXED_PARAMS_BYTES ==> (r matches Ok(p) && {
                &&& p.order == data@[0]
                &&& p.probing_multiplier == spec_u32_from_le_bytes(data@.subrange(4, 8))
                &&& p.model_type == spec_u32_from_le_bytes(data@.subrange(8, 12))
                &&& p.has_vocabulary == data@[12]
                &&& p.search_version == spec_u32_from_le_bytes(data@.subrange(16, 20))
            }),
            data@.len() < FIXED_PARAMS_BYTES ==> (r matches Err(e) && e is ParamHeaderFormatError),
    {
        if data.len() < FIXED_PARAMS_BYTES {
            return Err(Error::ParamHeaderFormatError);
        }
        let sl = data.as_slice();
        let order: u8 = data[0];
        let probing_multiplier: u32 = u32_from_le_bytes(slice_subrange(sl, 4, 8));
        let model_type: u32 = u32_from_le_bytes(slice_subrange(sl, 8, 12));
        let has_vocabulary: u8 = data[12];
        let search_version: u32 = u32_from_le_bytes(slice_subrange(sl, 16, 20));
        Ok(FixedParameters { order, probing_multiplier, model_type, has_vocabulary, search_version })
    }

    /// Whether the compiled model stores a vocabulary.
    pub fn has_vocabulary(&self) -> (r: bool)
        ensures
            r == (self.has_vocabulary != 0),
    {
        self.has_vocabulary != 0
    }
}

impl Counts {
    /// Decodes the per-order counts that follow the parameter record in
    /// a compiled model: one little-endian eight byte count per order.
    pub fn from_kenlm_binary(data: &Vec<u8>, offset: usize, order: u8) -> (r: Result<
        Counts,
        Error,
    >)
        ensures
            r is Ok <==> order >= 1 && offset + 8 * (order as int) <= data@.len() && (forall|
                i: int,
            |
                0 <= i < order ==> spec_u64_from_le_bytes(
                    #[trigger] data@.subrange(offset + 8 * i, offset + 8 * i + 8),
                ) <= usize::MAX),
            match r {
                Ok(c) => {
                    &&& order >= 1
                    &&& offset + 8 * (order as int) <= data@.len()
                    &&& c.wf()
                    &&& c.spec_counts().len() == order
                    &&& forall|i: int|
                        0 <= i < order ==> (#[trigger] c.spec_counts()[i]).cardinality
                            == spec_u64_from_le_bytes(
                            data@.subrange(offset + 8 * i, offset + 8 * i + 8),
                        )
                },
                Err(e) => e is CountHeaderError,
            },
    {
        if order == 0 {
            return Err(Error::CountHeaderError(crate::counts::InvalidCounts));
        }
        let n: usize = data.len();
        let ord: usize = order as usize;
        let need: usize = match 8usize.checked_mul(ord) {
            Some(v) => v,
            None => {
                return Err(Error::CountHeaderError(crate::counts::InvalidCounts));
            },
        };
        let end: usize = match offset.checked_add(need) {
            Some(v) => v,
            None => {
                return Err(Error::CountHeaderError(crate::counts::InvalidCounts));
            },
        };
        if end > n {
            return Err(Error::CountHeaderError(crate::counts::InvalidCounts));
        }
        let mut cards: Vec<NGramCardinality> = Vec::new();
        let mut i: usize = 0;
        while i < ord
            invariant
                0 <= i <= ord,
                ord == order as int,
                1 <= ord,
                n == data@.len(),
                cards@.len() == i,
                offset + 8 * ord <= n,
                forall|m: int|
                    0 <= m < i ==> {
                        &&& (#[trigger] cards@[m]).order == m + 1
                        &&& cards@[m].cardinality == spec_u64_from_le_bytes(
                            data@.subrange(offset + 8 * m, offset + 8 * m + 8),
                        )
                    },
            decreases ord - i,
        {
            let start: usize = offset + 8 * i;
            let c: u64 = u64_from_le_bytes(slice_subrange(data.as_slice(), start, start + 8));
            let cu: usize = if c > usize::MAX as u64 {
                proof {
                    assert(spec_u64_from_le_bytes(
                        data@.subrange(offset + 8 * (i as int), offset + 8 * (i as int) + 8),
                    ) > usize::MAX);
                }
                return Err(Error::CountHeaderError(crate::counts::InvalidCounts));
            } else {
                assert((c as int) <= (usize::MAX as int));
                c as usize
            };
            cards.push(NGramCardinality { order: i + 1, cardinality: cu });
            i += 1;
        }
        proof {
            assert(crate::counts::valid_count_set(cards@)) by {
                assert forall|o2: int| 1 <= o2 <= cards@.len() implies #[trigger] crate::counts::has_order(
                    cards@,
                    o2,
                ) by {
                    assert(cards@[o2 - 1].order == o2);
                }
            }
            assert forall|m: int|
                0 <= m < ord implies spec_u64_from_le_bytes(
                #[trigger] data@.subrange(offset + 8 * m, offset + 8 * m + 8),
            ) <= usize::MAX by {
                assert(cards@[m].cardinality == spec_u64_from_le_bytes(
                    data@.subrange(offset + 8 * m, offset + 8 * m + 8),
                ));
            }
        }
        match Counts::from_count_vec(cards) {
            Ok(c) => {
                proof {
                    assert(c.wf());
                }
                Ok(c)
            },
            Err(e) => Err(Error::CountHeaderError(e)),
        }
    }
}

} // verus!
