use document_loader::adapter::{SplitAdapter, Step};
use document_loader::document::Document;
use document_loader::error::{LoaderError, TextSplitterError};

type Item = Result<Document, LoaderError>;
type SplitResult = Result<Vec<Document>, TextSplitterError>;

fn doc(text: &str) -> Document {
    Document::new(text.to_string())
}

fn words(document: &Document) -> SplitResult {
    Ok(document.page_content.split_whitespace().map(doc).collect())
}

/// What a consumer saw, and what it cost.
struct Observed {
    items: Vec<Item>,
    pulls: usize,
    calls: usize,
    ended: bool,
}

/// Drives a fresh adapter the way a consumer does that takes at most `want`
/// items and then walks away.
fn consume(
    upstream: Vec<Item>,
    strategy: &mut dyn FnMut(&Document) -> SplitResult,
    want: usize,
) -> Observed {
    let mut upstream = upstream.into_iter();
    let mut seen = Observed { items: Vec::new(), pulls: 0, calls: 0, ended: false };
    let mut adapter = SplitAdapter::new();
    while seen.items.len() < want {
        let mut step = adapter.pull();
        loop {
            step = match step {
                Step::PullUpstream(waiting) => {
                    seen.pulls += 1;
                    waiting.resume(upstream.next())
                }
                Step::Split(document, waiting) => {
                    seen.calls += 1;
                    waiting.resume(strategy(&document))
                }
                Step::Yield(item, next) => {
                    seen.items.push(item);
                    adapter = next;
                    break;
                }
                Step::End => {
                    seen.ended = true;
                    return seen;
                }
            };
        }
    }
    seen
}

fn consume_all(
    upstream: Vec<Item>,
    strategy: &mut dyn FnMut(&Document) -> SplitResult,
) -> Observed {
    consume(upstream, strategy, usize::MAX)
}

#[test]
fn words_are_delivered_around_a_forwarded_error() {
    let upstream = vec![
        Ok(doc("hello world")),
        Err(LoaderError::SourceUnavailable),
        Ok(doc("foo bar baz")),
    ];
    let seen = consume_all(upstream, &mut words);
    assert_eq!(
        seen.items,
        vec![
            Ok(doc("hello")),
            Ok(doc("world")),
            Err(LoaderError::SourceUnavailable),
            Ok(doc("foo")),
            Ok(doc("bar")),
            Ok(doc("baz")),
        ]
    );
    assert!(seen.ended);
    assert_eq!(seen.pulls, 4);
    assert_eq!(seen.calls, 2);
}

#[test]
fn failure_on_the_second_document_leaves_the_others_alone() {
    let upstream = vec![Ok(doc("a1 a2")), Ok(doc("b1 b2 b3")), Ok(doc("c1"))];
    let mut asked = 0;
    let mut strategy = |document: &Document| {
        asked += 1;
        if asked == 2 {
            Err(TextSplitterError::OtherError("cannot split".to_string()))
        } else {
            words(document)
        }
    };
    let seen = consume_all(upstream, &mut strategy);
    assert_eq!(
        seen.items,
        vec![
            Ok(doc("a1")),
            Ok(doc("a2")),
            Err(LoaderError::TextSplitterError(TextSplitterError::OtherError(
                "cannot split".to_string()
            ))),
            Ok(doc("c1")),
        ]
    );
    assert_eq!(seen.calls, 3);
    assert!(seen.ended);
}

#[test]
fn output_length_is_the_sum_of_the_batch_lengths() {
    let upstream = vec![Ok(doc("a b c")), Ok(doc("")), Ok(doc("d")), Ok(doc("e f"))];
    let seen = consume_all(upstream, &mut words);
    assert_eq!(seen.items.len(), 3 + 0 + 1 + 2);
    assert_eq!(
        seen.items,
        vec![Ok(doc("a")), Ok(doc("b")), Ok(doc("c")), Ok(doc("d")), Ok(doc("e")), Ok(doc("f"))]
    );
}

#[test]
fn fragments_come_in_the_order_the_strategy_gave_them() {
    let mut backwards = |document: &Document| {
        let mut batch = words(document)?;
        batch.reverse();
        Ok(batch)
    };
    let seen = consume_all(vec![Ok(doc("1 2 3")), Ok(doc("4 5"))], &mut backwards);
    assert_eq!(
        seen.items,
        vec![Ok(doc("3")), Ok(doc("2")), Ok(doc("1")), Ok(doc("5")), Ok(doc("4"))]
    );
}

#[test]
fn the_strategy_sees_each_document_as_it_arrived() {
    let mut shown: Vec<Document> = Vec::new();
    let mut strategy = |document: &Document| {
        shown.push(document.clone());
        Ok(Vec::new())
    };
    let first = Document {
        page_content: "first".to_string(),
        metadata: vec![("source".to_string(), "a.txt".to_string())],
    };
    let seen = consume_all(
        vec![Ok(first.clone()), Err(LoaderError::SourceUnavailable), Ok(doc("second"))],
        &mut strategy,
    );
    assert_eq!(seen.items, vec![Err(LoaderError::SourceUnavailable)]);
    assert_eq!(shown, vec![first, doc("second")]);
}

#[test]
fn fragments_keep_their_metadata() {
    let fragment = Document {
        page_content: "piece".to_string(),
        metadata: vec![("page".to_string(), "7".to_string())],
    };
    let batch = vec![fragment.clone(), doc("other")];
    let mut strategy = |_: &Document| Ok(batch.clone());
    let seen = consume_all(vec![Ok(doc("whole"))], &mut strategy);
    assert_eq!(seen.items, vec![Ok(fragment), Ok(doc("other"))]);
}

#[test]
fn split_failure_is_exactly_one_item_at_the_place_of_its_document() {
    let mut strategy = |document: &Document| {
        if document.page_content == "bad" {
            Err(TextSplitterError::EmptyInputText)
        } else {
            words(document)
        }
    };
    let upstream = vec![Ok(doc("x y")), Ok(doc("bad")), Ok(doc("z"))];
    let seen = consume_all(upstream, &mut strategy);
    assert_eq!(seen.items.len(), 4);
    assert_eq!(
        seen.items[2],
        Err(LoaderError::TextSplitterError(TextSplitterError::EmptyInputText))
    );
    let failures = seen.items.iter().filter(|item| item.is_err()).count();
    assert_eq!(failures, 1);
    assert_eq!(seen.items[3], Ok(doc("z")));
}

#[test]
fn every_split_failure_is_delivered() {
    let mut strategy = |_: &Document| Err(TextSplitterError::InvalidSplitterOptions);
    let seen = consume_all(vec![Ok(doc("a")), Ok(doc("b")), Ok(doc("c"))], &mut strategy);
    let wrapped = Err(LoaderError::TextSplitterError(TextSplitterError::InvalidSplitterOptions));
    assert_eq!(seen.items, vec![wrapped.clone(), wrapped.clone(), wrapped]);
    assert_eq!(seen.calls, 3);
    assert!(seen.ended);
}

#[test]
fn upstream_errors_pass_through_unchanged() {
    let upstream = vec![
        Err(LoaderError::OtherError("disk".to_string())),
        Err(LoaderError::TextSplitterError(TextSplitterError::EmptyInputText)),
        Ok(doc("after")),
        Err(LoaderError::SourceUnavailable),
    ];
    let seen = consume_all(upstream, &mut words);
    assert_eq!(
        seen.items,
        vec![
            Err(LoaderError::OtherError("disk".to_string())),
            Err(LoaderError::TextSplitterError(TextSplitterError::EmptyInputText)),
            Ok(doc("after")),
            Err(LoaderError::SourceUnavailable),
        ]
    );
    assert_eq!(seen.calls, 1);
    assert_eq!(seen.pulls, 5);
}

#[test]
fn empty_upstream_ends_without_asking_the_strategy() {
    let seen = consume_all(Vec::new(), &mut words);
    assert!(seen.items.is_empty());
    assert!(seen.ended);
    assert_eq!(seen.pulls, 1);
    assert_eq!(seen.calls, 0);
}

#[test]
fn fresh_adapter_asks_upstream_first() {
    assert!(matches!(SplitAdapter::new().pull(), Step::PullUpstream(_)));
}

#[test]
fn end_of_upstream_ends_the_stream() {
    match SplitAdapter::new().pull() {
        Step::PullUpstream(waiting) => assert!(matches!(waiting.resume(None), Step::End)),
        _ => panic!("a fresh adapter owes nothing"),
    }
}

#[test]
fn a_document_is_handed_out_before_anything_is_yielded() {
    match SplitAdapter::new().pull() {
        Step::PullUpstream(waiting) => match waiting.resume(Some(Ok(doc("text")))) {
            Step::Split(document, _) => assert_eq!(document, doc("text")),
            _ => panic!("a document has to be split first"),
        },
        _ => panic!("a fresh adapter owes nothing"),
    }
}

#[test]
fn empty_batch_leads_to_the_next_upstream_pull() {
    let mut nothing = |_: &Document| Ok(Vec::new());
    let seen = consume_all(vec![Ok(doc("a")), Ok(doc("b")), Ok(doc("c"))], &mut nothing);
    assert!(seen.items.is_empty());
    assert!(seen.ended);
    assert_eq!(seen.pulls, 4);
    assert_eq!(seen.calls, 3);
}

#[test]
fn consumer_that_takes_nothing_causes_no_work() {
    let seen = consume(vec![Ok(doc("a b")), Ok(doc("c"))], &mut words, 0);
    assert!(seen.items.is_empty());
    assert_eq!(seen.pulls, 0);
    assert_eq!(seen.calls, 0);
    assert!(!seen.ended);
}

#[test]
fn no_pull_is_made_while_fragments_are_owed() {
    let upstream = || vec![Ok(doc("a b c")), Ok(doc("d e")), Ok(doc("f"))];
    for (want, pulls, calls) in [(1, 1, 1), (2, 1, 1), (3, 1, 1), (4, 2, 2), (5, 2, 2), (6, 3, 3)] {
        let seen = consume(upstream(), &mut words, want);
        assert_eq!(seen.items.len(), want);
        assert_eq!(seen.pulls, pulls);
        assert_eq!(seen.calls, calls);
        assert!(!seen.ended);
    }
    let seen = consume(upstream(), &mut words, 7);
    assert_eq!(seen.items.len(), 6);
    assert_eq!(seen.pulls, 4);
    assert_eq!(seen.calls, 3);
    assert!(seen.ended);
}

#[test]
fn stopping_early_leaves_later_items_untouched() {
    let upstream = vec![
        Ok(doc("one")),
        Err(LoaderError::SourceUnavailable),
        Ok(doc("never looked at")),
    ];
    let mut shown: Vec<String> = Vec::new();
    let mut strategy = |document: &Document| {
        shown.push(document.page_content.clone());
        words(document)
    };
    let seen = consume(upstream, &mut strategy, 2);
    assert_eq!(seen.items, vec![Ok(doc("one")), Err(LoaderError::SourceUnavailable)]);
    assert_eq!(seen.pulls, 2);
    assert_eq!(seen.calls, 1);
    assert_eq!(shown, vec!["one".to_string()]);
}

#[test]
fn items_skipped_for_empty_batches_are_the_only_extra_pulls() {
    let mut strategy = |document: &Document| {
        if document.page_content.starts_with("skip") {
            Ok(Vec::new())
        } else {
            words(document)
        }
    };
    let upstream = vec![Ok(doc("skip 1")), Ok(doc("skip 2")), Ok(doc("keep")), Ok(doc("late"))];
    let seen = consume(upstream, &mut strategy, 1);
    assert_eq!(seen.items, vec![Ok(doc("keep"))]);
    assert_eq!(seen.pulls, 3);
    assert_eq!(seen.calls, 3);
}

#[test]
fn split_failures_are_told_apart_from_source_failures() {
    assert!(LoaderError::TextSplitterError(TextSplitterError::EmptyInputText).is_split_failure());
    assert!(
        LoaderError::TextSplitterError(TextSplitterError::OtherError("x".to_string()))
            .is_split_failure()
    );
    assert!(!LoaderError::SourceUnavailable.is_split_failure());
    assert!(!LoaderError::OtherError("x".to_string()).is_split_failure());
}

#[test]
fn new_document_has_its_text_and_no_metadata() {
    let document = Document::new("some text".to_string());
    assert_eq!(document.page_content, "some text");
    assert!(document.metadata.is_empty());
}

fn awaiting_verdict_on(text: &str) -> document_loader::adapter::AwaitingSplit {
    match SplitAdapter::new().pull() {
        Step::PullUpstream(waiting) => match waiting.resume(Some(Ok(doc(text)))) {
            Step::Split(_, waiting) => waiting,
            _ => panic!("a document has to be split first"),
        },
        _ => panic!("a fresh adapter owes nothing"),
    }
}

#[test]
fn verdict_with_fragments_yields_the_first_at_once() {
    let step = awaiting_verdict_on("whole").resume(Ok(vec![doc("x"), doc("y"), doc("z")]));
    let adapter = match step {
        Step::Yield(item, adapter) => {
            assert_eq!(item, Ok(doc("x")));
            adapter
        }
        _ => panic!("the first fragment is due"),
    };
    let adapter = match adapter.pull() {
        Step::Yield(item, adapter) => {
            assert_eq!(item, Ok(doc("y")));
            adapter
        }
        _ => panic!("the second fragment is due"),
    };
    let adapter = match adapter.pull() {
        Step::Yield(item, adapter) => {
            assert_eq!(item, Ok(doc("z")));
            adapter
        }
        _ => panic!("the third fragment is due"),
    };
    assert!(matches!(adapter.pull(), Step::PullUpstream(_)));
}

#[test]
fn empty_verdict_asks_upstream_again() {
    let step = awaiting_verdict_on("whole").resume(Ok(Vec::new()));
    assert!(matches!(step, Step::PullUpstream(_)));
}

#[test]
fn failed_verdict_yields_the_wrapped_error_and_owes_nothing() {
    let step = awaiting_verdict_on("whole").resume(Err(TextSplitterError::InvalidSplitterOptions));
    match step {
        Step::Yield(item, adapter) => {
            assert_eq!(
                item,
                Err(LoaderError::TextSplitterError(TextSplitterError::InvalidSplitterOptions))
            );
            assert!(matches!(adapter.pull(), Step::PullUpstream(_)));
        }
        _ => panic!("the failure is due as an item"),
    }
}

#[test]
fn upstream_error_is_yielded_without_a_question() {
    match SplitAdapter::new().pull() {
        Step::PullUpstream(waiting) => {
            match waiting.resume(Some(Err(LoaderError::OtherError("gone".to_string())))) {
                Step::Yield(item, adapter) => {
                    assert_eq!(item, Err(LoaderError::OtherError("gone".to_string())));
                    assert!(matches!(adapter.pull(), Step::PullUpstream(_)));
                }
                _ => panic!("the error is due as an item"),
            }
        }
        _ => panic!("a fresh adapter owes nothing"),
    }
}
