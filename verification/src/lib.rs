//! Ingestion core of a document pipeline: documents, the error taxonomy they
//! travel with, and the adapter that routes a stream of fallible documents
//! through a text-splitting strategy.
//!
//! The adapter takes every decision and performs no waiting. A driver pulls
//! from the source and asks the strategy on its behalf, in whatever way the
//! surrounding program waits for such things, and hands the answers back.
//!
//! - [`document`] and [`error`] hold the values that flow through a stream.
//! - [`adapter`] is the adapter itself, one operation per state.
//! - [`stream_model`] says what the downstream sequence of a run is.
//! - [`run`] says what a consumer observes when the adapter is driven.
//! - [`laws`] proves that the two agree, and what follows for ordering,
//!   error containment, termination and laziness.

pub mod document;
pub mod error;
pub mod stream_model;
pub mod adapter;
pub mod run;
pub mod laws;
