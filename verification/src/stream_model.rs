//! The mathematical meaning of routing a document stream through a splitting
//! strategy.
//!
//! A finished run is described by two sequences of equal length: the items
//! the upstream source produced, and, position by position, the verdict the
//! strategy gave on the document at that position. The verdict at a position
//! that holds an upstream error is never consulted.

use vstd::prelude::*;
use crate::document::Document;
use crate::error::{LoaderError, TextSplitterError};

verus! {

/// One item of a document stream.
pub type Item = Result<Document, LoaderError>;

/// What a strategy answers for one document: its fragments, in the order the
/// strategy produced them, or the strategy's error.
pub type Verdict = Result<Seq<Document>, TextSplitterError>;

/// A batch of fragments as downstream items.
pub open spec fn as_items(batch: Seq<Document>) -> Seq<Item> {
    Seq::new(batch.len(), |i: int| Ok(batch[i]))
}

/// What one upstream item contributes downstream.
///
/// An upstream error passes through as it is. A document contributes its
/// fragments in strategy order, or, when the strategy fails on it, the
/// single item that wraps the strategy's error.
pub open spec fn fragments(item: Item, verdict: Verdict) -> Seq<Item> {
    match item {
        Err(e) => seq![Err(e)],
        Ok(_) => match verdict {
            Ok(batch) => as_items(batch),
            Err(e) => seq![Err(LoaderError::TextSplitterError(e))],
        },
    }
}

/// The contribution of every upstream item, in upstream order.
pub open spec fn contributions(upstream: Seq<Item>, verdicts: Seq<Verdict>) -> Seq<Seq<Item>>
    recommends
        verdicts.len() == upstream.len(),
{
    Seq::new(upstream.len(), |i: int| fragments(upstream[i], verdicts[i]))
}

/// The downstream items owed to the first `count` upstream items.
pub open spec fn split_prefix(upstream: Seq<Item>, verdicts: Seq<Verdict>, count: int) -> Seq<Item>
    recommends
        verdicts.len() == upstream.len(),
        0 <= count <= upstream.len(),
{
    contributions(upstream, verdicts).take(count).flatten()
}

/// The place in the downstream sequence where the contribution of the
/// upstream item at position `i` begins: as many items come before it as are
/// owed to the items upstream of it.
pub open spec fn place_of(upstream: Seq<Item>, verdicts: Seq<Verdict>, i: int) -> int
    recommends
        verdicts.len() == upstream.len(),
        0 <= i <= upstream.len(),
{
    split_prefix(upstream, verdicts, i).len() as int
}

/// Says that `out` holds the contribution of the upstream item at position
/// `i` in one piece at its place.
pub open spec fn stands_in_place(
    out: Seq<Item>,
    upstream: Seq<Item>,
    verdicts: Seq<Verdict>,
    i: int,
) -> bool
    recommends
        verdicts.len() == upstream.len(),
        0 <= i < upstream.len(),
{
    &&& place_of(upstream, verdicts, i) <= place_of(upstream, verdicts, i + 1) <= out.len()
    &&& out.subrange(place_of(upstream, verdicts, i), place_of(upstream, verdicts, i + 1))
        == fragments(upstream[i], verdicts[i])
}

/// The whole downstream sequence: the contributions of all upstream items,
/// one after the other.
pub open spec fn split_stream(upstream: Seq<Item>, verdicts: Seq<Verdict>) -> Seq<Item>
    recommends
        verdicts.len() == upstream.len(),
{
    contributions(upstream, verdicts).flatten()
}

/// A run in which the strategy succeeds on every document: the verdicts that
/// answer with the given batches.
pub open spec fn all_split(batches: Seq<Seq<Document>>) -> Seq<Verdict> {
    Seq::new(batches.len(), |i: int| Ok(batches[i]))
}

/// How many fragments the first `count` batches hold together.
pub open spec fn fragment_count(batches: Seq<Seq<Document>>, count: int) -> nat
    recommends
        0 <= count <= batches.len(),
    decreases count,
{
    if count <= 0 {
        0
    } else {
        fragment_count(batches, count - 1) + batches[count - 1].len()
    }
}

/// How many of the first `count` upstream items are documents, which is how
/// many times the strategy has to be asked for them.
pub open spec fn documents_among(upstream: Seq<Item>, count: int) -> nat
    recommends
        0 <= count <= upstream.len(),
{
    upstream.take(count).filter(|item: Item| item is Ok).len()
}

} // verus!
