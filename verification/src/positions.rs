//! Decoding term occurrence positions from per-term postings data into a
//! reusable fixed-capacity scratch buffer.
//!
//! The caller resolves the query against the field's term dictionary and,
//! for each matching term, seeks the term's postings to the target document
//! and reads off the current block's per-document frequencies and the
//! term's position stream as plain values ([`TermDocPostings`]). The
//! collector then locates each document's position block by a prefix sum
//! over the block frequencies and appends exactly `frequency` positions per
//! term into its scratch buffer. The resulting positions are concatenated
//! in term order, each term's positions already ascending; they are not
//! globally sorted, and consumers intersect by membership only.

use crate::HighlightError;
use vstd::prelude::*;

verus! {

/// Default scratch-buffer capacity, in decoded positions.
pub const DEFAULT_CAPACITY: usize = 256;

/// The postings data one query term contributes for the target document,
/// as plain values read off the term's postings cursor by the caller.
#[derive(Debug)]
pub struct TermDocPostings {
    /// Whether seeking the term's postings reached the target document.
    /// When false, the term contributes no positions and the remaining
    /// fields are ignored.
    pub doc_found: bool,
    /// Index of the target document among the documents of the current
    /// postings block, in visit order.
    pub doc_index: usize,
    /// Base offset of the current block's positions within the term's
    /// position stream.
    pub block_base: usize,
    /// Per-document term frequencies for the current postings block.
    pub block_freqs: Vec<u32>,
    /// The term's position stream, from which `frequency` values are read
    /// at the computed offset.
    pub position_data: Vec<u32>,
}

/// Sum of the first `n` per-document frequencies: the prefix sum that
/// locates a document's position block within the term's stream.
pub open spec fn sum_freqs(freqs: Seq<u32>, n: int) -> int
    decreases n,
{
    if n <= 0 {
        0
    } else {
        sum_freqs(freqs, n - 1) + freqs[n - 1]
    }
}

/// The target document's term frequency: its occurrence count in the
/// document, read from the block's frequency array.
pub open spec fn term_freq(t: TermDocPostings) -> int {
    t.block_freqs@[t.doc_index as int] as int
}

/// Offset of the target document's position block within the term's
/// position stream: the block base plus the frequencies of all documents
/// visited before it in the current block.
pub open spec fn term_offset(t: TermDocPostings) -> int {
    t.block_base + sum_freqs(t.block_freqs@, t.doc_index as int)
}

/// Whether the term's postings data is internally consistent: the document
/// index lies within the block and the document's position block lies
/// within the position stream. When this fails the store is truncated or
/// inconsistent and decoding surfaces [`HighlightError::PositionReadFailure`].
pub open spec fn term_readable(t: TermDocPostings) -> bool {
    &&& t.doc_index < t.block_freqs@.len()
    &&& term_offset(t) + term_freq(t) <= t.position_data@.len()
}

/// The positions the term contributes: exactly `frequency` values starting
/// at the computed offset, or nothing when the document is absent from the
/// term's postings.
pub open spec fn term_positions(t: TermDocPostings) -> Seq<u32> {
    if t.doc_found {
        t.position_data@.subrange(term_offset(t), term_offset(t) + term_freq(t))
    } else {
        Seq::empty()
    }
}

/// What decoding the remaining terms yields, starting from the positions
/// `acc` already decoded into a buffer of capacity `cap`: either the full
/// concatenation of per-term positions, or the first error met in term
/// order — a read failure on inconsistent data, checked before the
/// capacity of the scratch buffer.
pub open spec fn decode_terms(terms: Seq<TermDocPostings>, acc: Seq<u32>, cap: int) -> Result<
    Seq<u32>,
    HighlightError,
>
    decreases terms.len(),
{
    if terms.len() == 0 {
        Ok(acc)
    } else if !terms[0].doc_found {
        decode_terms(terms.drop_first(), acc, cap)
    } else if !term_readable(terms[0]) {
        Err(HighlightError::PositionReadFailure)
    } else if acc.len() + term_freq(terms[0]) > cap {
        Err(HighlightError::DecodeCapacityExceeded)
    } else {
        decode_terms(terms.drop_first(), acc + term_positions(terms[0]), cap)
    }
}

/// What decoding a document's terms into an empty scratch buffer of
/// capacity `cap` yields.
pub open spec fn decoded_positions(terms: Seq<TermDocPostings>, cap: int) -> Result<
    Seq<u32>,
    HighlightError,
> {
    decode_terms(terms, Seq::empty(), cap)
}

/// The set of token-ordinal positions at which any of a query's matching
/// terms occur in one document and field, decoded into a reusable
/// fixed-capacity scratch buffer.
///
/// One collector instance is created once and reused across calls; each
/// call to [`PositionCollector::positions`] overwrites the buffer, so its
/// contents are valid only until the next call on the same instance.
pub struct PositionCollector {
    buf: Vec<u32>,
    cap: usize,
}

impl PositionCollector {
    /// The populated prefix of the scratch buffer: the decoded positions.
    pub closed spec fn view(&self) -> Seq<u32> {
        self.buf@
    }

    /// The buffer's fixed capacity, in positions.
    pub closed spec fn capacity(&self) -> int {
        self.cap as int
    }

    /// The buffer never holds more positions than its capacity.
    pub open spec fn wf(&self) -> bool {
        self@.len() <= self.capacity()
    }

    /// A collector with the default scratch capacity.
    pub fn new() -> (c: Self)
        ensures
            c@ == Seq::<u32>::empty(),
            c.capacity() == DEFAULT_CAPACITY as int,
            c.wf(),
    {
        PositionCollector { buf: Vec::new(), cap: DEFAULT_CAPACITY }
    }

    /// A collector with the given scratch capacity.
    pub fn with_capacity(cap: usize) -> (c: Self)
        ensures
            c@ == Seq::<u32>::empty(),
            c.capacity() == cap as int,
            c.wf(),
    {
        PositionCollector { buf: Vec::new(), cap }
    }

    /// Number of decoded positions currently held.
    pub fn len(&self) -> (n: usize)
        ensures
            n == self@.len(),
    {
        self.buf.len()
    }

    /// Whether no positions were decoded.
    pub fn is_empty(&self) -> (b: bool)
        ensures
            b == (self@.len() == 0),
    {
        self.buf.len() == 0
    }

    /// The decoded position at index `i` of the populated prefix.
    pub fn get(&self, i: usize) -> (p: u32)
        requires
            i < self@.len(),
        ensures
            p == self@[i as int],
    {
        self.buf[i]
    }

    /// Whether the decoded position set contains ordinal `p`. The buffer is
    /// not globally sorted, so membership is a linear scan of the prefix.
    pub fn contains(&self, p: u32) -> (b: bool)
        ensures
            b == self@.contains(p),
    {
        let n = self.buf.len();
        let mut i: usize = 0;
        while i < n
            invariant
                n == self.buf@.len(),
                0 <= i <= n,
                forall|j: int| 0 <= j < i ==> self.buf@[j] != p,
            decreases n - i,
        {
            if self.buf[i] == p {
                return true;
            }
            i = i + 1;
        }
        false
    }

    /// Decodes the occurrence positions of every matching term into the
    /// scratch buffer, overwriting the previous contents.
    ///
    /// On success the buffer holds exactly the concatenation of each
    /// term's positions in term order. Inconsistent postings data surfaces
    /// [`HighlightError::PositionReadFailure`]; a document whose positions
    /// would not fit the buffer surfaces
    /// [`HighlightError::DecodeCapacityExceeded`], never a truncated or
    /// overrun buffer.
    pub fn positions(&mut self, terms: &Vec<TermDocPostings>) -> (r: Result<(), HighlightError>)
        ensures
            final(self).capacity() == old(self).capacity(),
            final(self).wf(),
            match decoded_positions(terms@, old(self).capacity()) {
                Ok(ps) => r == Ok::<(), HighlightError>(()) && final(self)@ == ps,
                Err(e) => r == Err::<(), HighlightError>(e),
            },
    {
        let ghost cap = old(self).capacity();
        self.buf.clear();
        let n_terms = terms.len();
        proof {
            assert(terms@.skip(0) =~= terms@);
        }
        let mut i: usize = 0;
        while i < n_terms
            invariant
                n_terms == terms@.len(),
                0 <= i <= n_terms,
                self.cap == old(self).cap,
                self.cap as int == cap,
                self.buf@.len() <= cap,
                decoded_positions(terms@, cap) == decode_terms(
                    terms@.skip(i as int),
                    self.buf@,
                    cap,
                ),
            decreases n_terms - i,
        {
            let ghost pre = terms@.skip(i as int);
            proof {
                assert(pre[0] == terms@[i as int]);
                assert(pre.drop_first() =~= terms@.skip(i as int + 1));
            }
            let t = &terms[i];
            if t.doc_found {
                let n_freqs = t.block_freqs.len();
                let data_len = t.position_data.len();
                if t.doc_index >= n_freqs {
                    return Err(HighlightError::PositionReadFailure);
                }
                let freq = t.block_freqs[t.doc_index] as usize;
                // Walk the prefix sum with checked arithmetic: an overflow
                // means the true offset already lies past the position
                // stream, which is the same inconsistency.
                let mut off: usize = t.block_base;
                let mut j: usize = 0;
                let mut overflowed = false;
                while j < t.doc_index
                    invariant
                        0 <= j <= t.doc_index < t.block_freqs@.len(),
                        !overflowed ==> off as int == t.block_base + sum_freqs(
                            t.block_freqs@,
                            j as int,
                        ),
                        overflowed ==> t.block_base + sum_freqs(t.block_freqs@, j as int)
                            > usize::MAX,
                    decreases t.doc_index - j,
                {
                    let step = t.block_freqs[j] as usize;
                    if !overflowed {
                        match off.checked_add(step) {
                            Some(next) => {
                                off = next;
                            },
                            None => {
                                overflowed = true;
                            },
                        }
                    }
                    j = j + 1;
                }
                let readable: bool;
                if overflowed {
                    proof {
                        assert(term_offset(*t) > usize::MAX);
                        assert(t.position_data@.len() == data_len <= usize::MAX);
                    }
                    readable = false;
                } else {
                    match off.checked_add(freq) {
                        Some(end) => {
                            readable = end <= data_len;
                        },
                        None => {
                            proof {
                                assert(term_offset(*t) + term_freq(*t) > usize::MAX);
                            }
                            readable = false;
                        },
                    }
                }
                if !readable {
                    proof {
                        assert(!term_readable(*t));
                        assert(decode_terms(pre, self.buf@, cap) == Err::<
                            Seq<u32>,
                            HighlightError,
                        >(HighlightError::PositionReadFailure));
                    }
                    return Err(HighlightError::PositionReadFailure);
                }
                if freq > self.cap - self.buf.len() {
                    proof {
                        assert(self.buf@.len() + term_freq(*t) > cap);
                        assert(decode_terms(pre, self.buf@, cap) == Err::<
                            Seq<u32>,
                            HighlightError,
                        >(HighlightError::DecodeCapacityExceeded));
                    }
                    return Err(HighlightError::DecodeCapacityExceeded);
                }
                let ghost buf_before = self.buf@;
                let end = off + freq;
                let mut k: usize = off;
                while k < end
                    invariant
                        self.cap == old(self).cap,
                        self.cap as int == cap,
                        off <= k <= end,
                        end <= t.position_data@.len(),
                        off as int == term_offset(*t),
                        end as int == term_offset(*t) + term_freq(*t),
                        self.buf@ == buf_before + t.position_data@.subrange(off as int, k as int),
                    decreases end - k,
                {
                    let ghost sub = t.position_data@.subrange(off as int, k as int);
                    self.buf.push(t.position_data[k]);
                    proof {
                        assert(t.position_data@.subrange(off as int, k as int + 1) =~= sub.push(
                            t.position_data@[k as int],
                        ));
                    }
                    k = k + 1;
                }
                proof {
                    assert(self.buf@ == buf_before + term_positions(*t));
                }
            }
            i = i + 1;
        }
        proof {
            assert(terms@.skip(n_terms as int) =~= Seq::<TermDocPostings>::empty());
        }
        Ok(())
    }
}

} // verus!
