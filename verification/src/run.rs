//! What a downstream consumer observes when the adapter is driven over a
//! finished run.
//!
//! Driving the adapter means answering each of its steps in the one way the
//! step allows: a pull upstream with the next upstream item or the news that
//! there is none, a question to the strategy with the verdict on that
//! document, a yielded item with the next downstream pull. The transcript
//! records, for every downstream pull, what came back and how much had been
//! asked of upstream and of the strategy by then.

use vstd::prelude::*;
use crate::adapter::{after_pull, after_upstream, after_verdict, StepView};
use crate::stream_model::{Item, Verdict};

verus! {

/// The answer to one downstream pull, with the work it had taken so far.
pub struct Emission {
    /// The item that came back, or `None` for the end of the stream.
    pub item: Option<Item>,
    /// How many times upstream had been pulled when the answer came.
    pub pulls: nat,
    /// How many times the strategy had been asked when the answer came.
    pub calls: nat,
}

/// How many upstream pulls can still be answered, the one that finds the end
/// included.
pub open spec fn pulls_left(upstream: Seq<Item>, pulls: nat) -> nat {
    if pulls <= upstream.len() {
        (upstream.len() + 1 - pulls) as nat
    } else {
        0
    }
}

/// How far a step is from the next upstream pull.
pub open spec fn step_rank(step: StepView) -> nat {
    match step {
        StepView::End => 0,
        StepView::PullUpstream => 1,
        StepView::Yield(_, _) => 2,
        StepView::Split(_) => 3,
    }
}

/// How many fragments a step still owes after the item it yields.
pub open spec fn step_owed(step: StepView) -> nat {
    match step {
        StepView::Yield(_, owed) => owed.len(),
        _ => 0,
    }
}

/// The answers to all downstream pulls from `step` on, the closing `None`
/// included, when `pulls` upstream pulls and `calls` questions to the
/// strategy have been made before.
///
/// A pull upstream is answered with the upstream item at the position that
/// the number of earlier pulls gives, or with `None` past the last one. A
/// question to the strategy is answered with the verdict at the position of
/// the item pulled last, which is the document the question is about.
pub open spec fn run(
    step: StepView,
    upstream: Seq<Item>,
    verdicts: Seq<Verdict>,
    pulls: nat,
    calls: nat,
) -> Seq<Emission>
    decreases pulls_left(upstream, pulls), step_rank(step), step_owed(step),
{
    match step {
        StepView::End => seq![Emission { item: None, pulls, calls }],
        StepView::Yield(item, owed) => seq![Emission { item: Some(item), pulls, calls }] + run(
            after_pull(owed),
            upstream,
            verdicts,
            pulls,
            calls,
        ),
        StepView::PullUpstream => {
            let answer = if pulls < upstream.len() {
                Some(upstream[pulls as int])
            } else {
                None
            };
            run(after_upstream(answer), upstream, verdicts, pulls + 1, calls)
        },
        StepView::Split(_) => run(
            after_verdict(verdicts[pulls - 1]),
            upstream,
            verdicts,
            pulls,
            calls + 1,
        ),
    }
}

/// The answers a consumer gets from a fresh adapter when it pulls until the
/// stream ends.
pub open spec fn transcript(upstream: Seq<Item>, verdicts: Seq<Verdict>) -> Seq<Emission>
    recommends
        verdicts.len() == upstream.len(),
{
    run(after_pull(Seq::empty()), upstream, verdicts, 0, 0)
}

/// The items among those answers, without the closing `None`.
pub open spec fn delivered(upstream: Seq<Item>, verdicts: Seq<Verdict>) -> Seq<Item>
    recommends
        verdicts.len() == upstream.len(),
{
    let answers = transcript(upstream, verdicts);
    Seq::new((answers.len() - 1) as nat, |k: int| answers[k].item.unwrap())
}

} // verus!
