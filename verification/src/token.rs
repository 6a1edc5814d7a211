//! The tokenizer replay's view of a document: a stream of tokens, each with
//! an ordinal position and a byte span into the raw text.
//!
//! The tokenizer itself is a collaborator: callers replay the field's
//! tokenizer over the text and hand the emitted tokens over as plain values.
//! Token ordinals must match the ordinals recorded at index time — the same
//! tokenizer, in the same configuration, on the same field value. That is an
//! external consistency contract; a drift silently yields wrong or missing
//! highlights rather than an error.

use vstd::prelude::*;

verus! {

/// One token emitted by a tokenizer pass over a document's raw text.
#[derive(Clone, Copy, Debug, PartialEq, Eq, Structural)]
pub struct Token {
    /// Zero-based index of this token among the tokens emitted for the text,
    /// matching the convention used at index time.
    pub position: u32,
    /// Byte offset at which the token's span starts (inclusive).
    pub offset_from: usize,
    /// Byte offset at which the token's span ends (exclusive).
    pub offset_to: usize,
}

/// A well-formed token stream over a text of `text_len` bytes: every span is
/// non-empty and lies within the text, and spans never move backwards — a
/// single forward-only tokenizer pass cannot revisit bytes.
pub open spec fn token_stream_wf(tokens: Seq<Token>, text_len: int) -> bool {
    &&& forall|i: int|
        0 <= i < tokens.len() ==> (#[trigger] tokens[i]).offset_from < tokens[i].offset_to
            <= text_len
    &&& forall|i: int|
        0 < i < tokens.len() ==> (#[trigger] tokens[i]).offset_from >= tokens[i - 1].offset_to
}

/// True when the token's span ends past the byte-offset limit, if one is
/// given: the first such token stops the replay.
pub open spec fn token_over_limit(t: Token, limit: Option<usize>) -> bool {
    match limit {
        None => false,
        Some(l) => t.offset_to > l,
    }
}

/// The prefix of the stream that a generator consumes under a byte-offset
/// limit: consumption stops at the first token whose span ends past the
/// limit, and tokens beyond it are never examined.
pub open spec fn limited_tokens(tokens: Seq<Token>, limit: Option<usize>) -> Seq<Token>
    decreases tokens.len(),
{
    if tokens.len() == 0 {
        tokens
    } else if token_over_limit(tokens[0], limit) {
        Seq::empty()
    } else {
        seq![tokens[0]] + limited_tokens(tokens.drop_first(), limit)
    }
}

/// Dropping the first token of a well-formed stream leaves it well-formed.
pub proof fn lemma_wf_drop_first(tokens: Seq<Token>, text_len: int)
    requires
        token_stream_wf(tokens, text_len),
        tokens.len() > 0,
    ensures
        token_stream_wf(tokens.drop_first(), text_len),
{
    let rest = tokens.drop_first();
    assert forall|i: int| 0 <= i < rest.len() implies (#[trigger] rest[i]).offset_from
        < rest[i].offset_to <= text_len by {
        assert(rest[i] == tokens[i + 1]);
    }
    assert forall|i: int| 0 < i < rest.len() implies (#[trigger] rest[i]).offset_from >= rest[i
        - 1].offset_to by {
        assert(rest[i] == tokens[i + 1]);
        assert(rest[i - 1] == tokens[i]);
    }
}

/// In a well-formed stream, a later token starts no earlier than an earlier
/// token ends.
pub proof fn lemma_wf_monotone(tokens: Seq<Token>, text_len: int, i: int, j: int)
    requires
        token_stream_wf(tokens, text_len),
        0 <= i < j < tokens.len(),
    ensures
        tokens[i].offset_to <= tokens[j].offset_from,
    decreases j - i,
{
    if i + 1 < j {
        lemma_wf_monotone(tokens, text_len, i, j - 1);
        assert(tokens[j - 1].offset_from < tokens[j - 1].offset_to);
    }
}

/// The limited prefix of a well-formed stream is well-formed, and under
/// `Some(l)` every token it keeps ends at or before `l`.
pub proof fn lemma_limited_tokens_wf(tokens: Seq<Token>, text_len: int, limit: Option<usize>)
    requires
        token_stream_wf(tokens, text_len),
    ensures
        token_stream_wf(limited_tokens(tokens, limit), text_len),
        limit matches Some(l) ==> forall|i: int|
            0 <= i < limited_tokens(tokens, limit).len() ==> (#[trigger] limited_tokens(
                tokens,
                limit,
            )[i]).offset_to <= l,
    decreases tokens.len(),
{
    if tokens.len() == 0 || token_over_limit(tokens[0], limit) {
    } else {
        lemma_wf_drop_first(tokens, text_len);
        lemma_limited_tokens_wf(tokens.drop_first(), text_len, limit);
        let rest = limited_tokens(tokens.drop_first(), limit);
        let whole = seq![tokens[0]] + rest;
        assert forall|i: int| 0 <= i < whole.len() implies (#[trigger] whole[i]).offset_from
            < whole[i].offset_to <= text_len by {
            if i > 0 {
                assert(whole[i] == rest[i - 1]);
            }
        }
        assert forall|i: int| 0 < i < whole.len() implies (#[trigger] whole[i]).offset_from
            >= whole[i - 1].offset_to by {
            assert(whole[i] == rest[i - 1]);
            if i == 1 {
                if tokens.len() > 1 {
                    lemma_limited_prefix_start(tokens.drop_first(), limit);
                }
            } else {
                assert(whole[i - 1] == rest[i - 2]);
            }
        }
    }
}

/// When the limited prefix is non-empty, its first token is the stream's
/// first token.
pub proof fn lemma_limited_prefix_start(tokens: Seq<Token>, limit: Option<usize>)
    requires
        limited_tokens(tokens, limit).len() > 0,
    ensures
        tokens.len() > 0,
        limited_tokens(tokens, limit)[0] == tokens[0],
{
}

} // verus!
