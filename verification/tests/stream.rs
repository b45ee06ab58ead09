use std::cell::Cell;
use std::rc::Rc;

use document_loader::adapter::{SplitAdapter, Step};
use document_loader::document::Document;
use document_loader::error::{LoaderError, TextSplitterError};
use futures::executor::block_on;
use futures::stream::{self, Stream, StreamExt};

type Item = Result<Document, LoaderError>;

fn doc(text: &str) -> Document {
    Document::new(text.to_string())
}

/// A strategy that answers after a suspension and counts how often it is
/// asked.
async fn one_word_each(
    document: Document,
    calls: Rc<Cell<usize>>,
) -> Result<Vec<Document>, TextSplitterError> {
    calls.set(calls.get() + 1);
    futures::future::ready(()).await;
    if document.page_content.is_empty() {
        return Err(TextSplitterError::EmptyInputText);
    }
    Ok(document.page_content.split_whitespace().map(doc).collect())
}

/// The adapter driven by a real asynchronous stream.
fn routed(
    upstream: Vec<Item>,
    pulls: Rc<Cell<usize>>,
    calls: Rc<Cell<usize>>,
) -> impl Stream<Item = Item> {
    let upstream = stream::iter(upstream);
    stream::unfold(
        (Some(SplitAdapter::new()), upstream),
        move |(adapter, mut upstream)| {
            let pulls = pulls.clone();
            let calls = calls.clone();
            async move {
                let mut step = adapter?.pull();
                loop {
                    step = match step {
                        Step::PullUpstream(waiting) => {
                            pulls.set(pulls.get() + 1);
                            waiting.resume(upstream.next().await)
                        }
                        Step::Split(document, waiting) => {
                            waiting.resume(one_word_each(document, calls.clone()).await)
                        }
                        Step::Yield(item, next) => return Some((item, (Some(next), upstream))),
                        Step::End => return None,
                    };
                }
            }
        },
    )
}

#[test]
fn stream_delivers_fragments_and_errors_in_order() {
    let pulls = Rc::new(Cell::new(0));
    let calls = Rc::new(Cell::new(0));
    let upstream = vec![
        Ok(doc("hello world")),
        Err(LoaderError::SourceUnavailable),
        Ok(doc("")),
        Ok(doc("foo bar baz")),
    ];
    let out: Vec<Item> = block_on(routed(upstream, pulls.clone(), calls.clone()).collect());
    assert_eq!(
        out,
        vec![
            Ok(doc("hello")),
            Ok(doc("world")),
            Err(LoaderError::SourceUnavailable),
            Err(LoaderError::TextSplitterError(TextSplitterError::EmptyInputText)),
            Ok(doc("foo")),
            Ok(doc("bar")),
            Ok(doc("baz")),
        ]
    );
    assert_eq!(pulls.get(), 5);
    assert_eq!(calls.get(), 3);
}

#[test]
fn stream_over_nothing_is_empty() {
    let pulls = Rc::new(Cell::new(0));
    let calls = Rc::new(Cell::new(0));
    let out: Vec<Item> = block_on(routed(Vec::new(), pulls.clone(), calls.clone()).collect());
    assert!(out.is_empty());
    assert_eq!(pulls.get(), 1);
    assert_eq!(calls.get(), 0);
}

#[test]
fn dropped_stream_does_no_further_work() {
    let pulls = Rc::new(Cell::new(0));
    let calls = Rc::new(Cell::new(0));
    let upstream = vec![Ok(doc("a b c")), Ok(doc("d")), Ok(doc("e f"))];
    let taken: Vec<Item> =
        block_on(routed(upstream, pulls.clone(), calls.clone()).take(2).collect());
    assert_eq!(taken, vec![Ok(doc("a")), Ok(doc("b"))]);
    assert_eq!(pulls.get(), 1);
    assert_eq!(calls.get(), 1);
}

#[test]
fn stream_that_is_never_polled_does_nothing() {
    let pulls = Rc::new(Cell::new(0));
    let calls = Rc::new(Cell::new(0));
    let unused = routed(vec![Ok(doc("a"))], pulls.clone(), calls.clone());
    drop(unused);
    assert_eq!(pulls.get(), 0);
    assert_eq!(calls.get(), 0);
}
