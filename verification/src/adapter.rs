//! The stream-splitting adapter as a resumable decision procedure.
//!
//! The adapter never performs the two slow operations it depends on, pulling
//! the next upstream item and asking the strategy to split a document. It
//! says which of them it needs, hands out a token for the answer, and goes on
//! when the token is resumed with that answer. Whoever drives it owns the
//! waiting; every decision about ordering, error containment and termination
//! is taken here.
//!
//! Each token is consumed by the one operation that is legal in its state, so
//! an answer can neither be given twice nor given to a question that was not
//! asked.

use vstd::prelude::*;
use crate::document::Document;
use crate::error::{LoaderError, TextSplitterError};
use crate::stream_model::{Item, Verdict};

verus! {

/// The adapter between two downstream items: it holds the fragments of the
/// document in flight that have not been handed on yet.
pub struct SplitAdapter {
    /// The fragments still owed, the next one to yield last.
    backlog: Vec<Document>,
}

/// The adapter while it waits for the next upstream item.
pub struct AwaitingUpstream {
    _sealed: (),
}

/// The adapter while it waits for the strategy's verdict on one document.
pub struct AwaitingSplit {
    _sealed: (),
}

/// What the adapter needs or offers next.
pub enum Step {
    /// The next upstream item is needed.
    PullUpstream(AwaitingUpstream),
    /// The strategy's verdict on the one-document batch is needed.
    Split(Document, AwaitingSplit),
    /// One downstream item, and the adapter to pull for the one after it.
    Yield(Item, SplitAdapter),
    /// The downstream sequence has ended.
    End,
}

/// Mathematical model of a [`Step`].
pub enum StepView {
    PullUpstream,
    Split(Document),
    /// The item, and the fragments still owed after it.
    Yield(Item, Seq<Document>),
    End,
}

/// The step a downstream pull leads to, given the fragments still owed:
/// the first of them if there is one, otherwise a pull upstream.
pub open spec fn after_pull(owed: Seq<Document>) -> StepView {
    if owed.len() > 0 {
        StepView::Yield(Ok(owed[0]), owed.skip(1))
    } else {
        StepView::PullUpstream
    }
}

/// The step an upstream answer leads to: the end when upstream has ended, the
/// error itself when upstream failed, a question to the strategy when
/// upstream produced a document.
pub open spec fn after_upstream(answer: Option<Item>) -> StepView {
    match answer {
        None => StepView::End,
        Some(Err(e)) => StepView::Yield(Err(e), Seq::empty()),
        Some(Ok(doc)) => StepView::Split(doc),
    }
}

/// The step a verdict leads to: one wrapped error when the strategy failed,
/// otherwise whatever a downstream pull finds among the fragments.
pub open spec fn after_verdict(verdict: Verdict) -> StepView {
    match verdict {
        Err(e) => StepView::Yield(Err(LoaderError::TextSplitterError(e)), Seq::empty()),
        Ok(batch) => after_pull(batch),
    }
}

/// The verdict that a strategy's result stands for.
pub open spec fn verdict_of(result: Result<Vec<Document>, TextSplitterError>) -> Verdict {
    match result {
        Ok(batch) => Ok(batch@),
        Err(e) => Err(e),
    }
}

impl View for SplitAdapter {
    type V = Seq<Document>;

    /// The fragments still owed, the next one to yield first.
    closed spec fn view(&self) -> Seq<Document> {
        self.backlog@.reverse()
    }
}

impl View for Step {
    type V = StepView;

    open spec fn view(&self) -> StepView {
        match *self {
            Step::PullUpstream(_) => StepView::PullUpstream,
            Step::Split(doc, _) => StepView::Split(doc),
            Step::Yield(item, adapter) => StepView::Yield(item, adapter@),
            Step::End => StepView::End,
        }
    }
}

/// The same documents in the opposite order.
fn reversed(batch: Vec<Document>) -> (out: Vec<Document>)
    ensures
        out@ == batch@.reverse(),
{
    let ghost given = batch@;
    let mut rest = batch;
    let mut out: Vec<Document> = Vec::new();
    while rest.len() > 0
        invariant
            rest@ == given.take(rest@.len() as int),
            rest@.len() + out@.len() == given.len(),
            forall|i: int| 0 <= i < out@.len() ==> out@[i] == given[given.len() - 1 - i],
        decreases rest@.len(),
    {
        let doc = rest.pop().unwrap();
        out.push(doc);
    }
    assert(out@ =~= given.reverse());
    out
}

impl SplitAdapter {
    /// An adapter that owes nothing, as at the start of a stream.
    pub fn new() -> (adapter: SplitAdapter)
        ensures
            adapter@ == Seq::<Document>::empty(),
    {
        let adapter = SplitAdapter { backlog: Vec::new() };
        assert(adapter@ =~= Seq::<Document>::empty());
        adapter
    }

    /// Answers one downstream pull.
    ///
    /// While fragments are owed the next one is yielded and nothing is asked
    /// of upstream or of the strategy. Only when none is left does the
    /// adapter ask for the next upstream item.
    pub fn pull(self) -> (step: Step)
        ensures
            step@ == after_pull(self@),
    {
        let mut backlog = self.backlog;
        match backlog.pop() {
            Some(doc) => {
                let rest = SplitAdapter { backlog };
                assert(rest@ =~= self@.skip(1));
                Step::Yield(Ok(doc), rest)
            },
            None => Step::PullUpstream(AwaitingUpstream { _sealed: () }),
        }
    }
}

impl AwaitingUpstream {
    /// Goes on with what upstream answered: `None` when it has ended,
    /// otherwise its next item.
    ///
    /// The end of upstream ends the downstream sequence. An upstream error is
    /// yielded as it is, without consulting the strategy. A document is
    /// handed out to be split, and nothing is yielded before the verdict.
    pub fn resume(self, answer: Option<Item>) -> (step: Step)
        ensures
            step@ == after_upstream(answer),
    {
        match answer {
            None => Step::End,
            Some(Err(e)) => Step::Yield(Err(e), SplitAdapter::new()),
            Some(Ok(doc)) => Step::Split(doc, AwaitingSplit { _sealed: () }),
        }
    }
}

impl AwaitingSplit {
    /// Goes on with the strategy's verdict on the document handed out.
    ///
    /// A failure becomes exactly one downstream item that wraps the
    /// strategy's error. A batch is yielded fragment by fragment, in the
    /// strategy's order; an empty batch yields nothing and leads straight to
    /// the next upstream pull.
    pub fn resume(self, result: Result<Vec<Document>, TextSplitterError>) -> (step: Step)
        ensures
            step@ == after_verdict(verdict_of(result)),
    {
        match result {
            Err(e) => Step::Yield(Err(LoaderError::TextSplitterError(e)), SplitAdapter::new()),
            Ok(batch) => {
                let adapter = SplitAdapter { backlog: reversed(batch) };
                assert(adapter@ =~= batch@);
                adapter.pull()
            },
        }
    }
}

} // verus!
