//! Range generators: intersect a tokenizer replay with the decoded
//! position set and emit byte ranges.
//!
//! [`HighlightRangesGenerator`] emits one [`HighlightRange`] per matched
//! token, optionally stopping at a byte-offset limit.
//! [`TextRangesGenerator`] instead emits a complete partition of
//! `[0, text_len)` into alternating highlighted and filler
//! [`TextRange`]s, suitable for rendering the whole text with inline
//! markup.

use crate::positions::{decoded_positions, PositionCollector, TermDocPostings};
use crate::token::{limited_tokens, token_stream_wf, Token};
use crate::HighlightError;
use vstd::prelude::*;

verus! {

/// One matched span: byte offsets into the source text.
#[derive(Clone, Copy, Debug, PartialEq, Eq, Structural)]
pub struct HighlightRange {
    /// Start of the matched token's span (inclusive).
    pub lower: usize,
    /// End of the matched token's span (exclusive).
    pub upper: usize,
}

impl HighlightRange {
    /// The range's `(lower, upper)` byte offsets.
    pub fn bounds(&self) -> (r: (usize, usize))
        ensures
            r == (self.lower, self.upper),
    {
        (self.lower, self.upper)
    }
}

/// One span of a full-text partition: a matched token's span when
/// `highlight` is set, a filler gap between matches otherwise.
#[derive(Clone, Copy, Debug, PartialEq, Eq, Structural)]
pub struct TextRange {
    /// Whether this span is a matched token (true) or filler (false).
    pub highlight: bool,
    /// Start of the span (inclusive).
    pub lower: usize,
    /// End of the span (exclusive).
    pub upper: usize,
}

impl TextRange {
    /// The single non-match range covering the whole text: the result when
    /// the position set is empty.
    pub fn whole(upper: usize) -> (r: Vec<TextRange>)
        ensures
            r@ == seq![TextRange { highlight: false, lower: 0, upper }],
    {
        let mut r: Vec<TextRange> = Vec::new();
        r.push(TextRange { highlight: false, lower: 0, upper });
        proof {
            assert(r@ =~= seq![TextRange { highlight: false, lower: 0, upper }]);
        }
        r
    }

    /// The range's `(highlight, lower, upper)` triple.
    pub fn bounds(&self) -> (r: (bool, usize, usize))
        ensures
            r == (self.highlight, self.lower, self.upper),
    {
        (self.highlight, self.lower, self.upper)
    }
}

/// The matched spans of a token stream: one range per consumed token whose
/// ordinal is a member of the decoded position set, in emission order.
pub open spec fn match_ranges(tokens: Seq<Token>, ps: Seq<u32>) -> Seq<HighlightRange>
    decreases tokens.len(),
{
    if tokens.len() == 0 {
        Seq::empty()
    } else {
        let rest = match_ranges(tokens.drop_first(), ps);
        if ps.contains(tokens[0].position) {
            seq![
                HighlightRange { lower: tokens[0].offset_from, upper: tokens[0].offset_to },
            ] + rest
        } else {
            rest
        }
    }
}

/// The full-text partition produced by walking the stream with a cursor at
/// `lower`: each matched token first closes the filler gap before it (if
/// any), then contributes a highlighted range; unmatched tokens stay folded
/// into the surrounding filler; a trailing filler range closes the text.
pub open spec fn text_ranges_from(
    tokens: Seq<Token>,
    ps: Seq<u32>,
    lower: usize,
    text_len: usize,
) -> Seq<TextRange>
    decreases tokens.len(),
{
    if tokens.len() == 0 {
        if lower < text_len {
            seq![TextRange { highlight: false, lower, upper: text_len }]
        } else {
            Seq::empty()
        }
    } else {
        let t = tokens[0];
        if ps.contains(t.position) {
            let gap: Seq<TextRange> = if t.offset_from > lower {
                seq![TextRange { highlight: false, lower, upper: t.offset_from }]
            } else {
                Seq::empty()
            };
            gap + seq![TextRange { highlight: true, lower: t.offset_from, upper: t.offset_to }]
                + text_ranges_from(tokens.drop_first(), ps, t.offset_to, text_len)
        } else {
            text_ranges_from(tokens.drop_first(), ps, lower, text_len)
        }
    }
}

/// The full-text partition for a whole stream, cursor starting at 0.
pub open spec fn text_ranges(tokens: Seq<Token>, ps: Seq<u32>, text_len: usize) -> Seq<TextRange> {
    text_ranges_from(tokens, ps, 0, text_len)
}

/// The view of an optional token stream handed over by the caller: `None`
/// when the field has no configured tokenizer.
pub open spec fn tokens_view(tokens: Option<&Vec<Token>>) -> Option<Seq<Token>> {
    match tokens {
        None => None,
        Some(ts) => Some(ts@),
    }
}

/// What [`HighlightRangesGenerator::generate`] returns once positions are
/// decoded: nothing for an empty position set; otherwise the matched spans
/// of the limited token stream, or [`HighlightError::TokenizerUnavailable`]
/// when no tokenizer exists for the field.
pub open spec fn highlight_ranges_result(
    ps: Seq<u32>,
    tokens: Option<Seq<Token>>,
    limit: Option<usize>,
) -> Result<Seq<HighlightRange>, HighlightError> {
    if ps.len() == 0 {
        Ok(Seq::empty())
    } else {
        match tokens {
            None => Err(HighlightError::TokenizerUnavailable),
            Some(toks) => Ok(match_ranges(limited_tokens(toks, limit), ps)),
        }
    }
}

/// What [`TextRangesGenerator::generate`] returns once positions are
/// decoded: the single whole-text non-match range for an empty position
/// set; otherwise the full-text partition, or
/// [`HighlightError::TokenizerUnavailable`] when no tokenizer exists.
pub open spec fn text_ranges_result(
    ps: Seq<u32>,
    tokens: Option<Seq<Token>>,
    text_len: usize,
) -> Result<Seq<TextRange>, HighlightError> {
    if ps.len() == 0 {
        Ok(seq![TextRange { highlight: false, lower: 0, upper: text_len }])
    } else {
        match tokens {
            None => Err(HighlightError::TokenizerUnavailable),
            Some(toks) => Ok(text_ranges(toks, ps, text_len)),
        }
    }
}

/// Emits one byte range per token of the text whose ordinal position is in
/// the decoded position set, in emission order, optionally stopping at a
/// byte-offset limit.
pub struct HighlightRangesGenerator;

impl HighlightRangesGenerator {
    /// Generates the matched spans of one document's text.
    ///
    /// `terms` is the query's matching term postings data for the
    /// document, `tokens` the field tokenizer's replay over the text
    /// (`None` when the field has no tokenizer), `text_len` the text's
    /// byte length and `limit` an optional byte-offset bound: consumption
    /// stops at the first token ending past it.
    ///
    /// Empty text short-circuits to an empty result without decoding;
    /// decoding errors are surfaced unchanged; an empty position set
    /// yields an empty result; otherwise the result is exactly the
    /// matched spans of the (limited) stream.
    pub fn generate(
        collector: &mut PositionCollector,
        terms: &Vec<TermDocPostings>,
        tokens: Option<&Vec<Token>>,
        text_len: usize,
        limit: Option<usize>,
    ) -> (r: Result<Vec<HighlightRange>, HighlightError>)
        requires
            old(collector).wf(),
        ensures
            final(collector).capacity() == old(collector).capacity(),
            final(collector).wf(),
            text_len == 0 ==> *final(collector) == *old(collector) && (r matches Ok(v) && v@
                == Seq::<HighlightRange>::empty()),
            text_len > 0 ==> match decoded_positions(terms@, old(collector).capacity()) {
                Err(e) => r matches Err(e2) && e2 == e,
                Ok(ps) => final(collector)@ == ps && (match highlight_ranges_result(
                    ps,
                    tokens_view(tokens),
                    limit,
                ) {
                    Err(e) => r matches Err(e2) && e2 == e,
                    Ok(rs) => r matches Ok(v) && v@ == rs,
                }),
            },
    {
        if text_len == 0 {
            return Ok(Vec::new());
        }
        if let Err(e) = collector.positions(terms) {
            return Err(e);
        }
        if collector.is_empty() {
            return Ok(Vec::new());
        }
        let toks: &Vec<Token> = match tokens {
            None => {
                return Err(HighlightError::TokenizerUnavailable);
            },
            Some(ts) => ts,
        };
        let ghost ps = collector@;
        let mut ranges: Vec<HighlightRange> = Vec::new();
        let n = toks.len();
        proof {
            assert(toks@.skip(0) =~= toks@);
        }
        let mut i: usize = 0;
        let mut stopped = false;
        while i < n && !stopped
            invariant
                n == toks@.len(),
                0 <= i <= n,
                collector@ == ps,
                ps.len() > 0,
                !stopped ==> match_ranges(limited_tokens(toks@, limit), ps) == ranges@
                    + match_ranges(limited_tokens(toks@.skip(i as int), limit), ps),
                stopped ==> match_ranges(limited_tokens(toks@, limit), ps) == ranges@,
            decreases n - i + (if stopped { 0int } else { 1int }),
        {
            let ghost pre = toks@.skip(i as int);
            proof {
                assert(pre[0] == toks@[i as int]);
                assert(pre.drop_first() =~= toks@.skip(i as int + 1));
            }
            let t = toks[i];
            let over = match limit {
                Some(l) => t.offset_to > l,
                None => false,
            };
            if over {
                stopped = true;
            } else {
                proof {
                    let lim = limited_tokens(pre, limit);
                    assert(lim == seq![t] + limited_tokens(pre.drop_first(), limit));
                    assert(lim[0] == t);
                    assert(lim.drop_first() =~= limited_tokens(pre.drop_first(), limit));
                }
                if collector.contains(t.position) {
                    ranges.push(HighlightRange { lower: t.offset_from, upper: t.offset_to });
                }
                i = i + 1;
            }
        }
        proof {
            if !stopped {
                assert(toks@.skip(n as int) =~= Seq::<Token>::empty());
            }
        }
        Ok(ranges)
    }
}

/// Emits a complete partition of `[0, text_len)` into alternating
/// highlighted and filler ranges.
pub struct TextRangesGenerator;

impl TextRangesGenerator {
    /// Generates the full-text partition of one document's text.
    ///
    /// `terms` is the query's matching term postings data for the
    /// document and `tokens` the field tokenizer's replay over the text
    /// (`None` when the field has no tokenizer); the stream must be
    /// well-formed over `text_len` bytes.
    ///
    /// Empty text short-circuits to an empty result without decoding;
    /// decoding errors are surfaced unchanged; an empty position set
    /// yields the single non-match range covering the whole text;
    /// otherwise the result is exactly the cursor walk's partition.
    pub fn generate(
        collector: &mut PositionCollector,
        terms: &Vec<TermDocPostings>,
        tokens: Option<&Vec<Token>>,
        text_len: usize,
    ) -> (r: Result<Vec<TextRange>, HighlightError>)
        requires
            old(collector).wf(),
            tokens matches Some(ts) ==> token_stream_wf(ts@, text_len as int),
        ensures
            final(collector).capacity() == old(collector).capacity(),
            final(collector).wf(),
            text_len == 0 ==> *final(collector) == *old(collector) && (r matches Ok(v) && v@
                == Seq::<TextRange>::empty()),
            text_len > 0 ==> match decoded_positions(terms@, old(collector).capacity()) {
                Err(e) => r matches Err(e2) && e2 == e,
                Ok(ps) => final(collector)@ == ps && (match text_ranges_result(
                    ps,
                    tokens_view(tokens),
                    text_len,
                ) {
                    Err(e) => r matches Err(e2) && e2 == e,
                    Ok(rs) => r matches Ok(v) && v@ == rs,
                }),
            },
    {
        if text_len == 0 {
            return Ok(Vec::new());
        }
        if let Err(e) = collector.positions(terms) {
            return Err(e);
        }
        if collector.is_empty() {
            return Ok(TextRange::whole(text_len));
        }
        let toks: &Vec<Token> = match tokens {
            None => {
                return Err(HighlightError::TokenizerUnavailable);
            },
            Some(ts) => ts,
        };
        let ghost ps = collector@;
        let mut ranges: Vec<TextRange> = Vec::new();
        let mut lower: usize = 0;
        let n = toks.len();
        proof {
            assert(toks@.skip(0) =~= toks@);
        }
        let mut i: usize = 0;
        while i < n
            invariant
                n == toks@.len(),
                0 <= i <= n,
                collector@ == ps,
                ps.len() > 0,
                token_stream_wf(toks@, text_len as int),
                lower <= text_len,
                forall|j: int| i <= j < n ==> lower <= (#[trigger] toks@[j]).offset_from,
                text_ranges(toks@, ps, text_len) == ranges@ + text_ranges_from(
                    toks@.skip(i as int),
                    ps,
                    lower,
                    text_len,
                ),
            decreases n - i,
        {
            let ghost pre = toks@.skip(i as int);
            proof {
                assert(pre[0] == toks@[i as int]);
                assert(pre.drop_first() =~= toks@.skip(i as int + 1));
            }
            let t = toks[i];
            if collector.contains(t.position) {
                let ghost before = ranges@;
                if t.offset_from > lower {
                    ranges.push(TextRange { highlight: false, lower, upper: t.offset_from });
                }
                ranges.push(TextRange { highlight: true, lower: t.offset_from, upper: t.offset_to });
                proof {
                    let gap: Seq<TextRange> = if t.offset_from > lower {
                        seq![TextRange { highlight: false, lower, upper: t.offset_from }]
                    } else {
                        Seq::empty()
                    };
                    let hl = seq![
                        TextRange { highlight: true, lower: t.offset_from, upper: t.offset_to },
                    ];
                    assert(ranges@ =~= before + gap + hl);
                    assert(text_ranges_from(pre, ps, lower, text_len) == gap + hl
                        + text_ranges_from(pre.drop_first(), ps, t.offset_to, text_len));
                    assert(before + text_ranges_from(pre, ps, lower, text_len) =~= (before + gap
                        + hl) + text_ranges_from(pre.drop_first(), ps, t.offset_to, text_len));
                    // The cursor stays at or before every remaining token.
                    assert forall|j: int| i + 1 <= j < n implies t.offset_to <= (
                    #[trigger] toks@[j]).offset_from by {
                        crate::token::lemma_wf_monotone(toks@, text_len as int, i as int, j);
                    }
                }
                lower = t.offset_to;
            }
            i = i + 1;
        }
        proof {
            assert(toks@.skip(n as int) =~= Seq::<Token>::empty());
        }
        if lower < text_len {
            ranges.push(TextRange { highlight: false, lower, upper: text_len });
        }
        Ok(ranges)
    }
}


/// Whether `rs` partitions `[0, text_len)` exactly: it is non-empty, starts
/// at 0, ends at `text_len`, every range is non-empty, and each range
/// begins exactly where the previous one ends — contiguous, non-overlapping
/// and covering the whole text.
pub open spec fn is_partition(rs: Seq<TextRange>, text_len: usize) -> bool {
    &&& rs.len() > 0
    &&& rs[0].lower == 0
    &&& rs[rs.len() - 1].upper == text_len
    &&& forall|i: int| 0 <= i < rs.len() ==> (#[trigger] rs[i]).lower < rs[i].upper
    &&& forall|i: int| 0 < i < rs.len() ==> (#[trigger] rs[i]).lower == rs[i - 1].upper
}

/// Whether `rs` is a contiguous chain of non-empty ranges from `lo` to
/// `hi`; an empty chain requires `lo == hi`.
pub open spec fn is_chain(rs: Seq<TextRange>, lo: usize, hi: usize) -> bool {
    &&& rs.len() == 0 ==> lo == hi
    &&& rs.len() > 0 ==> rs[0].lower == lo && rs[rs.len() - 1].upper == hi
    &&& forall|i: int| 0 <= i < rs.len() ==> (#[trigger] rs[i]).lower < rs[i].upper
    &&& forall|i: int| 0 < i < rs.len() ==> (#[trigger] rs[i]).lower == rs[i - 1].upper
}

/// Two adjoining chains concatenate to one chain.
proof fn lemma_chain_concat(a: Seq<TextRange>, b: Seq<TextRange>, lo: usize, mid: usize, hi: usize)
    requires
        is_chain(a, lo, mid),
        is_chain(b, mid, hi),
    ensures
        is_chain(a + b, lo, hi),
{
    let c = a + b;
    if a.len() == 0 {
        assert(c =~= b);
    } else if b.len() == 0 {
        assert(c =~= a);
    } else {
        assert(c[0] == a[0]);
        assert(c[c.len() - 1] == b[b.len() - 1]);
        assert forall|i: int| 0 <= i < c.len() implies (#[trigger] c[i]).lower < c[i].upper by {
            if i < a.len() {
                assert(c[i] == a[i]);
            } else {
                assert(c[i] == b[i - a.len()]);
            }
        }
        assert forall|i: int| 0 < i < c.len() implies (#[trigger] c[i]).lower == c[i - 1].upper by {
            if i < a.len() {
                assert(c[i] == a[i]);
                assert(c[i - 1] == a[i - 1]);
            } else if i == a.len() {
                assert(c[i] == b[0]);
                assert(c[i - 1] == a[a.len() - 1]);
            } else {
                assert(c[i] == b[i - a.len()]);
                assert(c[i - 1] == b[i - a.len() - 1]);
            }
        }
    }
}

/// The cursor walk over a well-formed stream yields a chain from the
/// cursor to the end of the text.
proof fn lemma_text_ranges_from_chain(
    tokens: Seq<Token>,
    ps: Seq<u32>,
    lower: usize,
    text_len: usize,
)
    requires
        token_stream_wf(tokens, text_len as int),
        lower <= text_len,
        forall|j: int| 0 <= j < tokens.len() ==> lower <= (#[trigger] tokens[j]).offset_from,
    ensures
        is_chain(text_ranges_from(tokens, ps, lower, text_len), lower, text_len),
    decreases tokens.len(),
{
    if tokens.len() == 0 {
    } else {
        let t = tokens[0];
        crate::token::lemma_wf_drop_first(tokens, text_len as int);
        let rest = tokens.drop_first();
        if ps.contains(t.position) {
            assert forall|j: int| 0 <= j < rest.len() implies t.offset_to <= (
            #[trigger] rest[j]).offset_from by {
                assert(rest[j] == tokens[j + 1]);
                crate::token::lemma_wf_monotone(tokens, text_len as int, 0, j + 1);
            }
            lemma_text_ranges_from_chain(rest, ps, t.offset_to, text_len);
            let gap: Seq<TextRange> = if t.offset_from > lower {
                seq![TextRange { highlight: false, lower, upper: t.offset_from }]
            } else {
                Seq::empty()
            };
            let hl = seq![TextRange { highlight: true, lower: t.offset_from, upper: t.offset_to }];
            assert(is_chain(gap + hl, lower, t.offset_to));
            lemma_chain_concat(
                gap + hl,
                text_ranges_from(rest, ps, t.offset_to, text_len),
                lower,
                t.offset_to,
                text_len,
            );
            assert(text_ranges_from(tokens, ps, lower, text_len) =~= (gap + hl)
                + text_ranges_from(rest, ps, t.offset_to, text_len));
        } else {
            assert forall|j: int| 0 <= j < rest.len() implies lower <= (
            #[trigger] rest[j]).offset_from by {
                assert(rest[j] == tokens[j + 1]);
            }
            lemma_text_ranges_from_chain(rest, ps, lower, text_len);
        }
    }
}

/// Partition law: for any non-empty text and well-formed token stream, the
/// full-text ranges are contiguous, non-overlapping, non-empty, and their
/// union is exactly `[0, text_len)` — whatever the position set holds.
pub proof fn lemma_text_ranges_partition(tokens: Seq<Token>, ps: Seq<u32>, text_len: usize)
    requires
        token_stream_wf(tokens, text_len as int),
        text_len > 0,
    ensures
        is_partition(text_ranges(tokens, ps, text_len), text_len),
{
    lemma_text_ranges_from_chain(tokens, ps, 0, text_len);
}

/// Partition law over the generator's whole result: for a non-empty text,
/// every successful outcome — the token walk's ranges, or the single
/// whole-text non-match range when the position set is empty — partitions
/// `[0, text_len)` exactly.
pub proof fn lemma_text_ranges_result_partition(
    ps: Seq<u32>,
    tokens: Option<Seq<Token>>,
    text_len: usize,
)
    requires
        text_len > 0,
        tokens matches Some(ts) ==> token_stream_wf(ts, text_len as int),
    ensures
        text_ranges_result(ps, tokens, text_len) matches Ok(rs) ==> is_partition(rs, text_len),
{
    if ps.len() == 0 {
        let rs = seq![TextRange { highlight: false, lower: 0, upper: text_len }];
        assert(is_partition(rs, text_len));
    } else {
        match tokens {
            None => {},
            Some(ts) => {
                lemma_text_ranges_partition(ts, ps, text_len);
            },
        }
    }
}

/// The matched spans of a well-formed stream are non-empty, within the
/// text, non-overlapping, and start no earlier than the first token.
proof fn lemma_match_ranges_props(tokens: Seq<Token>, ps: Seq<u32>, text_len: usize)
    requires
        token_stream_wf(tokens, text_len as int),
    ensures
        ({
            let rs = match_ranges(tokens, ps);
            &&& forall|i: int|
                0 <= i < rs.len() ==> (#[trigger] rs[i]).lower < rs[i].upper <= text_len
            &&& forall|i: int| 0 < i < rs.len() ==> (#[trigger] rs[i]).lower >= rs[i - 1].upper
            &&& rs.len() > 0 && tokens.len() > 0 ==> tokens[0].offset_from <= rs[0].lower
        }),
    decreases tokens.len(),
{
    if tokens.len() == 0 {
    } else {
        let t = tokens[0];
        crate::token::lemma_wf_drop_first(tokens, text_len as int);
        let rest_toks = tokens.drop_first();
        lemma_match_ranges_props(rest_toks, ps, text_len);
        let rest = match_ranges(rest_toks, ps);
        let rs = match_ranges(tokens, ps);
        if ps.contains(t.position) {
            let head = seq![HighlightRange { lower: t.offset_from, upper: t.offset_to }];
            assert(rs =~= head + rest);
            assert forall|i: int| 0 <= i < rs.len() implies (#[trigger] rs[i]).lower < rs[i].upper
                <= text_len by {
                if i > 0 {
                    assert(rs[i] == rest[i - 1]);
                }
            }
            assert forall|i: int| 0 < i < rs.len() implies (#[trigger] rs[i]).lower >= rs[i
                - 1].upper by {
                assert(rs[i] == rest[i - 1]);
                if i == 1 {
                    assert(rest_toks.len() > 0);
                    assert(rest_toks[0] == tokens[1]);
                } else {
                    assert(rs[i - 1] == rest[i - 2]);
                }
            }
        } else {
            if rs.len() > 0 {
                assert(rest_toks.len() > 0);
                assert(rest_toks[0] == tokens[1]);
                assert(tokens[1].offset_from >= t.offset_to > t.offset_from);
            }
        }
    }
}

/// Every matched span of a stream whose tokens all end at or before `l`
/// itself ends at or before `l`.
proof fn lemma_match_ranges_within_limit(tokens: Seq<Token>, ps: Seq<u32>, l: usize)
    requires
        forall|i: int| 0 <= i < tokens.len() ==> (#[trigger] tokens[i]).offset_to <= l,
    ensures
        forall|i: int|
            0 <= i < match_ranges(tokens, ps).len() ==> (#[trigger] match_ranges(tokens, ps)[i]).upper
                <= l,
    decreases tokens.len(),
{
    if tokens.len() == 0 {
    } else {
        let rest_toks = tokens.drop_first();
        assert forall|i: int| 0 <= i < rest_toks.len() implies (#[trigger] rest_toks[i]).offset_to
            <= l by {
            assert(rest_toks[i] == tokens[i + 1]);
        }
        lemma_match_ranges_within_limit(rest_toks, ps, l);
        let rest = match_ranges(rest_toks, ps);
        let rs = match_ranges(tokens, ps);
        if ps.contains(tokens[0].position) {
            assert forall|i: int| 0 <= i < rs.len() implies (#[trigger] rs[i]).upper <= l by {
                if i > 0 {
                    assert(rs[i] == rest[i - 1]);
                }
            }
        }
    }
}

/// Ordering and truncation law: the matched spans consumed under a limit
/// are strictly ascending by `lower`, non-overlapping, each non-empty and
/// within the text, and when a limit `l` is given none ends past `l`.
pub proof fn lemma_match_ranges_ordered(
    tokens: Seq<Token>,
    ps: Seq<u32>,
    text_len: usize,
    limit: Option<usize>,
)
    requires
        token_stream_wf(tokens, text_len as int),
    ensures
        ({
            let rs = match_ranges(limited_tokens(tokens, limit), ps);
            &&& forall|i: int|
                0 <= i < rs.len() ==> (#[trigger] rs[i]).lower < rs[i].upper <= text_len
            &&& forall|i: int|
                0 < i < rs.len() ==> rs[i - 1].lower < (#[trigger] rs[i]).lower && rs[i - 1].upper
                    <= rs[i].lower
            &&& limit matches Some(l) ==> forall|i: int|
                0 <= i < rs.len() ==> (#[trigger] rs[i]).upper <= l
        }),
{
    crate::token::lemma_limited_tokens_wf(tokens, text_len as int, limit);
    let lim = limited_tokens(tokens, limit);
    lemma_match_ranges_props(lim, ps, text_len);
    let rs = match_ranges(lim, ps);
    assert forall|i: int| 0 < i < rs.len() implies rs[i - 1].lower < (#[trigger] rs[i]).lower && rs[
        i - 1].upper <= rs[i].lower by {
        assert(rs[i - 1].lower < rs[i - 1].upper);
    }
    match limit {
        None => {},
        Some(l) => {
            lemma_match_ranges_within_limit(lim, ps, l);
        },
    }
}

} // verus!
