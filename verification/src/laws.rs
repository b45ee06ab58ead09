//! What holds of every run of the adapter.
//!
//! Each law speaks of `transcript` and `delivered`, which are built from the
//! very step functions that the adapter's operations are proved to follow,
//! and relates them to the meaning given in `stream_model`. The laws come
//! first, the lemmas they rest on after them.

use vstd::prelude::*;
use crate::adapter::{after_pull, after_upstream, after_verdict, StepView};
use crate::document::Document;
use crate::error::{LoaderError, TextSplitterError};
use crate::run::{delivered, run, transcript, Emission};
use crate::stream_model::{
    all_split, as_items, contributions, documents_among, fragment_count, fragments, place_of,
    split_prefix, split_stream, stands_in_place, Item, Verdict,
};

verus! {

/// Driven over any finished run, the adapter delivers the contributions of
/// the upstream items one after the other, in upstream order, and ends when
/// upstream has ended and not before.
///
/// Nothing is dropped, repeated, reordered or invented, whatever the
/// upstream items and the verdicts are.
pub proof fn law_delivers_split_stream(upstream: Seq<Item>, verdicts: Seq<Verdict>)
    requires
        verdicts.len() == upstream.len(),
    ensures
        delivered(upstream, verdicts) == split_stream(upstream, verdicts),
        transcript(upstream, verdicts).len() == split_stream(upstream, verdicts).len() + 1,
        transcript(upstream, verdicts).last().item is None,
        forall|k: int|
            0 <= k < split_stream(upstream, verdicts).len() ==> (#[trigger] transcript(
                upstream,
                verdicts,
            )[k]).item == Some(split_stream(upstream, verdicts)[k]),
{
    lemma_transcript(upstream, verdicts);
    assert(delivered(upstream, verdicts) =~= split_stream(upstream, verdicts));
}

/// The contribution of each upstream item stands in one piece, in the place
/// that its position upstream gives it: right after everything owed to the
/// items before it, and before anything owed to the items after it.
pub proof fn law_contributions_are_contiguous(
    upstream: Seq<Item>,
    verdicts: Seq<Verdict>,
    i: int,
)
    requires
        verdicts.len() == upstream.len(),
        0 <= i < upstream.len(),
    ensures
        stands_in_place(delivered(upstream, verdicts), upstream, verdicts, i),
        place_of(upstream, verdicts, i + 1) == place_of(upstream, verdicts, i) + fragments(
            upstream[i],
            verdicts[i],
        ).len(),
        delivered(upstream, verdicts).take(place_of(upstream, verdicts, i)) == split_prefix(
            upstream,
            verdicts,
            i,
        ),
{
    law_delivers_split_stream(upstream, verdicts);
    lemma_prefix_ends(upstream, verdicts);
    lemma_prefix_step(upstream, verdicts, i);
    lemma_prefix_grows(upstream, verdicts, i, upstream.len() as int);
    lemma_prefix_grows(upstream, verdicts, i + 1, upstream.len() as int);
    let out = delivered(upstream, verdicts);
    let before = split_prefix(upstream, verdicts, i);
    let through = split_prefix(upstream, verdicts, i + 1);
    let own = fragments(upstream[i], verdicts[i]);
    assert(out.subrange(before.len() as int, through.len() as int) =~= own) by {
        assert forall|k: int| 0 <= k < own.len() implies out[before.len() + k] == own[k] by {
            assert(out.take(through.len() as int)[before.len() + k] == through[before.len() + k]);
        }
    }
}

/// When every upstream item is a document and the strategy splits every one
/// of them, the adapter delivers all fragments and nothing else: as many
/// items as the batches hold together, the fragments of one document side by
/// side in the strategy's order, the documents in upstream order.
pub proof fn law_fragments_keep_their_order(docs: Seq<Document>, batches: Seq<Seq<Document>>)
    requires
        batches.len() == docs.len(),
    ensures
        delivered(as_items(docs), all_split(batches)) == as_items(batches.flatten()),
        delivered(as_items(docs), all_split(batches)).len() == fragment_count(
            batches,
            batches.len() as int,
        ),
        forall|i: int|
            0 <= i < batches.len() ==> {
                &&& fragment_count(batches, i + 1) <= delivered(
                    as_items(docs),
                    all_split(batches),
                ).len()
                &&& delivered(as_items(docs), all_split(batches)).subrange(
                    fragment_count(batches, i) as int,
                    fragment_count(batches, i + 1) as int,
                ) == as_items(#[trigger] batches[i])
            },
{
    let upstream = as_items(docs);
    let verdicts = all_split(batches);
    let out = delivered(upstream, verdicts);
    law_delivers_split_stream(upstream, verdicts);
    lemma_prefix_ends(upstream, verdicts);
    lemma_all_split_prefix(docs, batches, batches.len() as int);
    assert(batches.take(batches.len() as int) =~= batches);
    assert forall|i: int| 0 <= i < batches.len() implies {
        &&& fragment_count(batches, i + 1) <= out.len()
        &&& out.subrange(fragment_count(batches, i) as int, fragment_count(batches, i + 1) as int)
            == as_items(#[trigger] batches[i])
    } by {
        lemma_all_split_prefix(docs, batches, i);
        lemma_all_split_prefix(docs, batches, i + 1);
        law_contributions_are_contiguous(upstream, verdicts, i);
    }
}

/// A document on which the strategy fails costs exactly one downstream item,
/// the strategy's error wrapped as a split failure, in the place of that
/// document. Every upstream item, before or after it, contributes what it
/// would have contributed anyway, and the strategy is asked about every
/// document of the run all the same.
pub proof fn law_split_failure_is_contained(
    upstream: Seq<Item>,
    verdicts: Seq<Verdict>,
    i: int,
    e: TextSplitterError,
)
    requires
        verdicts.len() == upstream.len(),
        0 <= i < upstream.len(),
        upstream[i] is Ok,
        verdicts[i] == Err::<Seq<Document>, TextSplitterError>(e),
    ensures
        place_of(upstream, verdicts, i) < delivered(upstream, verdicts).len(),
        delivered(upstream, verdicts)[place_of(upstream, verdicts, i)] == Err::<
            Document,
            LoaderError,
        >(LoaderError::TextSplitterError(e)),
        place_of(upstream, verdicts, i + 1) == place_of(upstream, verdicts, i) + 1,
        forall|j: int|
            0 <= j < upstream.len() ==> #[trigger] stands_in_place(
                delivered(upstream, verdicts),
                upstream,
                verdicts,
                j,
            ),
        transcript(upstream, verdicts).last().calls == documents_among(
            upstream,
            upstream.len() as int,
        ),
{
    let out = delivered(upstream, verdicts);
    let at = place_of(upstream, verdicts, i);
    law_contributions_are_contiguous(upstream, verdicts, i);
    assert(out.subrange(at, at + 1)[0] == out[at]);
    lemma_transcript(upstream, verdicts);
    assert forall|j: int| 0 <= j < upstream.len() implies #[trigger] stands_in_place(
        out,
        upstream,
        verdicts,
        j,
    ) by {
        law_contributions_are_contiguous(upstream, verdicts, j);
    }
}

/// An upstream error is delivered unchanged, as one item in the place where
/// it arrived, without the strategy being asked about it. Every upstream
/// item, before or after it, contributes what it would have contributed
/// anyway.
pub proof fn law_upstream_error_is_forwarded(
    upstream: Seq<Item>,
    verdicts: Seq<Verdict>,
    i: int,
    e: LoaderError,
)
    requires
        verdicts.len() == upstream.len(),
        0 <= i < upstream.len(),
        upstream[i] == Err::<Document, LoaderError>(e),
    ensures
        place_of(upstream, verdicts, i) < delivered(upstream, verdicts).len(),
        delivered(upstream, verdicts)[place_of(upstream, verdicts, i)] == Err::<
            Document,
            LoaderError,
        >(e),
        place_of(upstream, verdicts, i + 1) == place_of(upstream, verdicts, i) + 1,
        transcript(upstream, verdicts)[place_of(upstream, verdicts, i)].calls == documents_among(
            upstream,
            i,
        ),
        forall|j: int|
            0 <= j < upstream.len() ==> #[trigger] stands_in_place(
                delivered(upstream, verdicts),
                upstream,
                verdicts,
                j,
            ),
{
    let out = delivered(upstream, verdicts);
    let at = place_of(upstream, verdicts, i);
    law_delivers_split_stream(upstream, verdicts);
    law_contributions_are_contiguous(upstream, verdicts, i);
    assert(fragments(upstream[i], verdicts[i]) =~= seq![upstream[i]]);
    assert(out.subrange(at, at + 1)[0] == out[at]);
    law_no_work_ahead_of_demand(upstream, verdicts, at);
    let pulls = transcript(upstream, verdicts)[at].pulls as int;
    if pulls - 1 < i {
        lemma_prefix_grows(upstream, verdicts, pulls, i);
    }
    if pulls - 1 > i {
        lemma_prefix_grows(upstream, verdicts, i + 1, pulls - 1);
    }
    lemma_documents_step(upstream, i);
    assert forall|j: int| 0 <= j < upstream.len() implies #[trigger] stands_in_place(
        out,
        upstream,
        verdicts,
        j,
    ) by {
        law_contributions_are_contiguous(upstream, verdicts, j);
    }
}

/// Over an upstream that holds nothing the stream ends at the first pull:
/// one look upstream, no item delivered, the strategy never asked.
pub proof fn law_empty_upstream_ends_at_once()
    ensures
        transcript(Seq::<Item>::empty(), Seq::<Verdict>::empty()) == seq![
            Emission { item: None, pulls: 1, calls: 0 },
        ],
        delivered(Seq::<Item>::empty(), Seq::<Verdict>::empty()) == Seq::<Item>::empty(),
{
    let upstream = Seq::<Item>::empty();
    let verdicts = Seq::<Verdict>::empty();
    assert(after_pull(Seq::<Document>::empty()) == StepView::PullUpstream);
    assert(after_upstream(None) == StepView::End);
    assert(run(StepView::PullUpstream, upstream, verdicts, 0, 0) == run(
        StepView::End,
        upstream,
        verdicts,
        1,
        0,
    ));
    assert(delivered(upstream, verdicts) =~= Seq::<Item>::empty());
}

/// The adapter never works ahead of its consumer.
///
/// When the consumer receives its item number `k` (counting from zero), the
/// adapter has pulled upstream exactly as far as the item from which that
/// output derives: the upstream items before that one account for no more
/// than `k` outputs, so none of the pulls could have been spared. By then the
/// strategy has been asked once for each document among the items pulled and
/// never otherwise. A consumer that stops after any number of items has
/// therefore caused no pull and no question beyond those. Only the pull that
/// is answered with the end of the stream has looked upstream once more.
pub proof fn law_no_work_ahead_of_demand(upstream: Seq<Item>, verdicts: Seq<Verdict>, k: int)
    requires
        verdicts.len() == upstream.len(),
        0 <= k < transcript(upstream, verdicts).len(),
    ensures
        ({
            let answer = transcript(upstream, verdicts)[k];
            let out = delivered(upstream, verdicts);
            &&& k < out.len() ==> {
                &&& answer.item == Some(out[k])
                &&& 1 <= answer.pulls <= upstream.len()
                &&& place_of(upstream, verdicts, answer.pulls - 1) <= k < place_of(
                    upstream,
                    verdicts,
                    answer.pulls as int,
                )
                &&& answer.calls == documents_among(upstream, answer.pulls as int)
            }
            &&& k == out.len() ==> {
                &&& answer.item is None
                &&& answer.pulls == upstream.len() + 1
                &&& answer.calls == documents_among(upstream, upstream.len() as int)
            }
        }),
{
    law_delivers_split_stream(upstream, verdicts);
    lemma_transcript(upstream, verdicts);
}

/// What the consumer has received does not depend on what comes later.
///
/// However the run goes on after the upstream items pulled so far, whether it
/// ends there or brings any number of further items and verdicts, the first
/// answers are the same and have cost the same. So the adapter serves an
/// upstream that never ends as it serves one that does.
pub proof fn law_answers_do_not_wait_for_the_future(
    upstream: Seq<Item>,
    verdicts: Seq<Verdict>,
    later_upstream: Seq<Item>,
    later_verdicts: Seq<Verdict>,
    k: int,
)
    requires
        verdicts.len() == upstream.len(),
        later_verdicts.len() == later_upstream.len(),
        0 <= k < delivered(upstream, verdicts).len(),
    ensures
        k < delivered(upstream + later_upstream, verdicts + later_verdicts).len(),
        transcript(upstream + later_upstream, verdicts + later_verdicts)[k] == transcript(
            upstream,
            verdicts,
        )[k],
{
    let all_upstream = upstream + later_upstream;
    let all_verdicts = verdicts + later_verdicts;
    let n = upstream.len() as int;
    law_delivers_split_stream(upstream, verdicts);
    law_delivers_split_stream(all_upstream, all_verdicts);
    lemma_prefix_ends(upstream, verdicts);
    lemma_prefix_ends(all_upstream, all_verdicts);
    lemma_prefix_of_longer_run(upstream, verdicts, later_upstream, later_verdicts, n);
    lemma_prefix_grows(all_upstream, all_verdicts, n, all_upstream.len() as int);
    law_no_work_ahead_of_demand(upstream, verdicts, k);
    law_no_work_ahead_of_demand(all_upstream, all_verdicts, k);
    let short = transcript(upstream, verdicts)[k];
    let long = transcript(all_upstream, all_verdicts)[k];
    let at = short.pulls as int;
    lemma_prefix_of_longer_run(upstream, verdicts, later_upstream, later_verdicts, at - 1);
    lemma_prefix_of_longer_run(upstream, verdicts, later_upstream, later_verdicts, at);
    if long.pulls < at {
        lemma_prefix_grows(all_upstream, all_verdicts, long.pulls as int, at - 1);
    }
    if long.pulls > at {
        lemma_prefix_grows(all_upstream, all_verdicts, at, long.pulls - 1);
    }
    assert(long.pulls == short.pulls);
    let whole = split_stream(all_upstream, all_verdicts);
    let part = split_stream(upstream, verdicts);
    assert(whole.take(part.len() as int)[k] == whole[k]);
    assert(long.item == short.item);
}

/// One upstream item more adds exactly its own contribution.
proof fn lemma_prefix_step(upstream: Seq<Item>, verdicts: Seq<Verdict>, count: int)
    requires
        0 <= count < upstream.len(),
    ensures
        split_prefix(upstream, verdicts, count + 1) == split_prefix(upstream, verdicts, count)
            + fragments(upstream[count], verdicts[count]),
{
    let all = contributions(upstream, verdicts);
    let longer = all.take(count + 1);
    let shorter = all.take(count);
    longer.lemma_flatten_and_flatten_alt_are_equivalent();
    shorter.lemma_flatten_and_flatten_alt_are_equivalent();
    assert(longer.drop_last() =~= shorter);
    assert(longer.last() == fragments(upstream[count], verdicts[count]));
}

/// Nothing is owed to no upstream items, and everything to all of them.
proof fn lemma_prefix_ends(upstream: Seq<Item>, verdicts: Seq<Verdict>)
    ensures
        split_prefix(upstream, verdicts, 0) == Seq::<Item>::empty(),
        split_prefix(upstream, verdicts, upstream.len() as int) == split_stream(
            upstream,
            verdicts,
        ),
{
    let all = contributions(upstream, verdicts);
    assert(all.take(0) =~= Seq::<Seq<Item>>::empty());
    assert(all.take(upstream.len() as int) =~= all);
}

/// What is owed to fewer upstream items is the beginning of what is owed to
/// more of them.
proof fn lemma_prefix_grows(upstream: Seq<Item>, verdicts: Seq<Verdict>, fewer: int, more: int)
    requires
        0 <= fewer <= more <= upstream.len(),
    ensures
        split_prefix(upstream, verdicts, fewer).len() <= split_prefix(
            upstream,
            verdicts,
            more,
        ).len(),
        split_prefix(upstream, verdicts, more).take(
            split_prefix(upstream, verdicts, fewer).len() as int,
        ) == split_prefix(upstream, verdicts, fewer),
    decreases more - fewer,
{
    if fewer < more {
        lemma_prefix_grows(upstream, verdicts, fewer, more - 1);
        lemma_prefix_step(upstream, verdicts, more - 1);
        let short = split_prefix(upstream, verdicts, fewer);
        let mid = split_prefix(upstream, verdicts, more - 1);
        let long = split_prefix(upstream, verdicts, more);
        assert(long.take(short.len() as int) =~= mid.take(short.len() as int));
    } else {
        let same = split_prefix(upstream, verdicts, fewer);
        assert(same.take(same.len() as int) =~= same);
    }
}

/// What is owed to the first upstream items of a run does not change when
/// the run goes on.
proof fn lemma_prefix_of_longer_run(
    upstream: Seq<Item>,
    verdicts: Seq<Verdict>,
    later_upstream: Seq<Item>,
    later_verdicts: Seq<Verdict>,
    count: int,
)
    requires
        verdicts.len() == upstream.len(),
        0 <= count <= upstream.len(),
    ensures
        split_prefix(upstream + later_upstream, verdicts + later_verdicts, count) == split_prefix(
            upstream,
            verdicts,
            count,
        ),
        documents_among(upstream + later_upstream, count) == documents_among(upstream, count),
{
    let longer = contributions(upstream + later_upstream, verdicts + later_verdicts);
    assert(longer.take(count) =~= contributions(upstream, verdicts).take(count));
    assert((upstream + later_upstream).take(count) =~= upstream.take(count));
}

/// In a run where every document is split, what is owed to the first `count`
/// documents is the fragments of the first `count` batches.
proof fn lemma_all_split_prefix(docs: Seq<Document>, batches: Seq<Seq<Document>>, count: int)
    requires
        batches.len() == docs.len(),
        0 <= count <= docs.len(),
    ensures
        split_prefix(as_items(docs), all_split(batches), count) == as_items(
            batches.take(count).flatten(),
        ),
        split_prefix(as_items(docs), all_split(batches), count).len() == fragment_count(
            batches,
            count,
        ),
    decreases count,
{
    let upstream = as_items(docs);
    let verdicts = all_split(batches);
    if count == 0 {
        lemma_prefix_ends(upstream, verdicts);
        assert(batches.take(0) =~= Seq::<Seq<Document>>::empty());
        assert(as_items(batches.take(0).flatten()) =~= Seq::<Item>::empty());
    } else {
        lemma_all_split_prefix(docs, batches, count - 1);
        lemma_prefix_step(upstream, verdicts, count - 1);
        let longer = batches.take(count);
        let shorter = batches.take(count - 1);
        longer.lemma_flatten_and_flatten_alt_are_equivalent();
        shorter.lemma_flatten_and_flatten_alt_are_equivalent();
        assert(longer.drop_last() =~= shorter);
        assert(longer.last() == batches[count - 1]);
        assert(as_items(longer.flatten()) =~= as_items(shorter.flatten()) + as_items(
            batches[count - 1],
        ));
    }
}

/// There is no document among no items.
proof fn lemma_documents_start(upstream: Seq<Item>)
    ensures
        documents_among(upstream, 0) == 0,
{
    reveal(Seq::filter);
    assert(upstream.take(0) =~= Seq::<Item>::empty());
}

/// One upstream item more is one document more exactly when it is a document.
proof fn lemma_documents_step(upstream: Seq<Item>, count: int)
    requires
        0 <= count < upstream.len(),
    ensures
        documents_among(upstream, count + 1) == documents_among(upstream, count) + (
        if upstream[count] is Ok {
            1nat
        } else {
            0nat
        }),
{
    reveal(Seq::filter);
    assert(upstream.take(count + 1).drop_last() =~= upstream.take(count));
    assert(upstream.take(count + 1).last() == upstream[count]);
}

/// The given items as answers that all came at the same point of the run.
spec fn stamped(items: Seq<Item>, pulls: nat, calls: nat) -> Seq<Emission> {
    Seq::new(items.len(), |k: int| Emission { item: Some(items[k]), pulls, calls })
}

/// Fragments that are owed are yielded one by one, with nothing asked of
/// upstream or of the strategy in between.
proof fn lemma_run_drains(
    owed: Seq<Document>,
    upstream: Seq<Item>,
    verdicts: Seq<Verdict>,
    pulls: nat,
    calls: nat,
)
    ensures
        run(after_pull(owed), upstream, verdicts, pulls, calls) == stamped(
            as_items(owed),
            pulls,
            calls,
        ) + run(StepView::PullUpstream, upstream, verdicts, pulls, calls),
    decreases owed.len(),
{
    let rest = run(StepView::PullUpstream, upstream, verdicts, pulls, calls);
    if owed.len() > 0 {
        lemma_run_drains(owed.skip(1), upstream, verdicts, pulls, calls);
        let first = seq![Emission { item: Some(Ok(owed[0])), pulls, calls }];
        assert(stamped(as_items(owed), pulls, calls) =~= first + stamped(
            as_items(owed.skip(1)),
            pulls,
            calls,
        ));
        assert(run(after_pull(owed), upstream, verdicts, pulls, calls) =~= first + (stamped(
            as_items(owed.skip(1)),
            pulls,
            calls,
        ) + rest));
    } else {
        assert(stamped(as_items(owed), pulls, calls) + rest =~= rest);
    }
}

/// Pulling one upstream item yields its contribution, asks the strategy once
/// if it is a document, and leads to the next upstream pull.
proof fn lemma_run_one_item(upstream: Seq<Item>, verdicts: Seq<Verdict>, pulls: nat, calls: nat)
    requires
        pulls < upstream.len(),
    ensures
        ({
            let asked = if upstream[pulls as int] is Ok {
                calls + 1
            } else {
                calls
            };
            run(StepView::PullUpstream, upstream, verdicts, pulls, calls) == stamped(
                fragments(upstream[pulls as int], verdicts[pulls as int]),
                pulls + 1,
                asked,
            ) + run(StepView::PullUpstream, upstream, verdicts, pulls + 1, asked)
        }),
{
    let item = upstream[pulls as int];
    let verdict = verdicts[pulls as int];
    let now = (pulls + 1) as nat;
    assert(run(StepView::PullUpstream, upstream, verdicts, pulls, calls) == run(
        after_upstream(Some(item)),
        upstream,
        verdicts,
        now,
        calls,
    ));
    assert(after_pull(Seq::<Document>::empty()) == StepView::PullUpstream);
    match item {
        Err(e) => {
            let next = run(StepView::PullUpstream, upstream, verdicts, now, calls);
            assert(stamped(fragments(item, verdict), now, calls) =~= seq![
                Emission { item: Some(item), pulls: now, calls },
            ]);
            assert(run(after_upstream(Some(item)), upstream, verdicts, now, calls) == seq![
                Emission { item: Some(item), pulls: now, calls },
            ] + next);
        },
        Ok(doc) => {
            let asked = (calls + 1) as nat;
            let next = run(StepView::PullUpstream, upstream, verdicts, now, asked);
            assert(run(StepView::Split(doc), upstream, verdicts, now, calls) == run(
                after_verdict(verdict),
                upstream,
                verdicts,
                now,
                asked,
            ));
            match verdict {
                Err(e) => {
                    let wrapped: Item = Err(LoaderError::TextSplitterError(e));
                    assert(stamped(fragments(item, verdict), now, asked) =~= seq![
                        Emission { item: Some(wrapped), pulls: now, calls: asked },
                    ]);
                    assert(run(after_verdict(verdict), upstream, verdicts, now, asked) == seq![
                        Emission { item: Some(wrapped), pulls: now, calls: asked },
                    ] + next);
                },
                Ok(batch) => {
                    lemma_run_drains(batch, upstream, verdicts, now, asked);
                },
            }
        },
    }
}

/// Says of the answers from an upstream pull on, when `pulls` items have been
/// pulled and their contributions delivered, that they are the rest of the
/// downstream sequence, each item stamped with the pull that brought it, and
/// then the end.
spec fn is_rest_of_run(
    answers: Seq<Emission>,
    upstream: Seq<Item>,
    verdicts: Seq<Verdict>,
    pulls: nat,
) -> bool {
    let done = place_of(upstream, verdicts, pulls as int);
    let total = split_stream(upstream, verdicts);
    &&& done <= total.len()
    &&& answers.len() == total.len() - done + 1
    &&& answers[total.len() - done] == Emission {
        item: None,
        pulls: (upstream.len() + 1) as nat,
        calls: documents_among(upstream, upstream.len() as int),
    }
    &&& forall|k: int|
        0 <= k < total.len() - done ==> {
            let answer = #[trigger] answers[k];
            &&& answer.item == Some(total[done + k])
            &&& pulls < answer.pulls <= upstream.len()
            &&& place_of(upstream, verdicts, answer.pulls - 1) <= done + k < place_of(
                upstream,
                verdicts,
                answer.pulls as int,
            )
            &&& answer.calls == documents_among(upstream, answer.pulls as int)
        }
}

/// From any upstream pull of a run on, the answers are the rest of the run.
proof fn lemma_run_from_pull(upstream: Seq<Item>, verdicts: Seq<Verdict>, pulls: nat)
    requires
        pulls <= upstream.len(),
    ensures
        is_rest_of_run(
            run(
                StepView::PullUpstream,
                upstream,
                verdicts,
                pulls,
                documents_among(upstream, pulls as int),
            ),
            upstream,
            verdicts,
            pulls,
        ),
    decreases upstream.len() - pulls,
{
    let calls = documents_among(upstream, pulls as int);
    let answers = run(StepView::PullUpstream, upstream, verdicts, pulls, calls);
    let total = split_stream(upstream, verdicts);
    let done = place_of(upstream, verdicts, pulls as int);
    lemma_prefix_ends(upstream, verdicts);
    lemma_prefix_grows(upstream, verdicts, pulls as int, upstream.len() as int);
    if pulls == upstream.len() {
        assert(after_upstream(None) == StepView::End);
        assert(answers == run(StepView::End, upstream, verdicts, pulls + 1, calls));
    } else {
        let own = fragments(upstream[pulls as int], verdicts[pulls as int]);
        let now = (pulls + 1) as nat;
        let asked = documents_among(upstream, now as int);
        lemma_documents_step(upstream, pulls as int);
        lemma_run_one_item(upstream, verdicts, pulls, calls);
        lemma_prefix_step(upstream, verdicts, pulls as int);
        lemma_prefix_grows(upstream, verdicts, now as int, upstream.len() as int);
        lemma_run_from_pull(upstream, verdicts, now);
        let head = stamped(own, now, asked);
        let tail = run(StepView::PullUpstream, upstream, verdicts, now, asked);
        assert(answers == head + tail);
        let through = split_prefix(upstream, verdicts, now as int);
        assert(through.len() == done + own.len());
        assert forall|k: int| 0 <= k < total.len() - done implies {
            let answer = #[trigger] answers[k];
            &&& answer.item == Some(total[done + k])
            &&& pulls < answer.pulls <= upstream.len()
            &&& place_of(upstream, verdicts, answer.pulls - 1) <= done + k < place_of(
                upstream,
                verdicts,
                answer.pulls as int,
            )
            &&& answer.calls == documents_among(upstream, answer.pulls as int)
        } by {
            if k < own.len() {
                assert(answers[k] == head[k]);
                assert(total.take(through.len() as int)[done + k] == through[done + k]);
                assert(through[done + k] == own[k]);
            } else {
                assert(answers[k] == tail[k - own.len()]);
            }
        }
    }
}

/// The transcript of a run is the whole run.
proof fn lemma_transcript(upstream: Seq<Item>, verdicts: Seq<Verdict>)
    ensures
        is_rest_of_run(transcript(upstream, verdicts), upstream, verdicts, 0),
        place_of(upstream, verdicts, 0) == 0,
{
    lemma_run_from_pull(upstream, verdicts, 0);
    lemma_prefix_ends(upstream, verdicts);
    lemma_documents_start(upstream);
    assert(after_pull(Seq::<Document>::empty()) == StepView::PullUpstream);
}

} // verus!
