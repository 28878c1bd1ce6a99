//! Optimistic transaction driver.
//!
//! One transaction attempt moves through these states: the body runs and
//! builds an atomic pipeline (`Building`), the pipeline is executed
//! against the store (`Executing`), and the attempt either commits, fails
//! on a non-retryable error, or retries because a watched key changed.
//! The embedder drives the loop: it performs the reads and the pipeline
//! execution, and feeds what it observed back as events.  The machine
//! decides; in particular, only an aborted pipeline ever leads back to a
//! fresh attempt, never a body error or a connection error.

use vstd::prelude::*;

verus! {

/// States of a transaction attempt.
#[derive(Clone, Copy, PartialEq, Eq, Structural, Debug)]
pub enum TxState {
    /// The body is running and enqueuing writes.
    Building,
    /// The pipeline was handed to the store.
    Executing,
    /// The pipeline was accepted: every write landed.
    Committed,
    /// A watched key changed: nothing landed, run the body afresh.
    Retrying,
    /// A non-retryable error: surface it, nothing landed.
    Failed,
}

/// What the embedder observed while driving one attempt.
#[derive(Clone, Copy, PartialEq, Eq, Structural, Debug)]
pub enum TxEvent {
    /// A fresh attempt starts its body.
    Begin,
    /// The body finished and flushed its pipeline.
    BodyOk,
    /// The body returned an error of its own.
    BodyErr,
    /// The store accepted the pipeline.
    ExecOk,
    /// The store discarded the pipeline: a watched key changed.
    ExecAborted,
    /// The connection to the store failed.
    ConnErr,
}

/// The transition relation of the driver; `None` for observations that
/// cannot occur in the given state.
pub open spec fn spec_tx_step(s: TxState, e: TxEvent) -> Option<TxState> {
    match (s, e) {
        (TxState::Building, TxEvent::BodyOk) => Some(TxState::Executing),
        (TxState::Building, TxEvent::BodyErr) => Some(TxState::Failed),
        (TxState::Executing, TxEvent::ExecOk) => Some(TxState::Committed),
        (TxState::Executing, TxEvent::ExecAborted) => Some(TxState::Retrying),
        (TxState::Executing, TxEvent::ConnErr) => Some(TxState::Failed),
        (TxState::Retrying, TxEvent::Begin) => Some(TxState::Building),
        _ => None,
    }
}

/// Advances the driver by one observation.
pub fn tx_step(s: TxState, e: TxEvent) -> (r: Option<TxState>)
    ensures
        r == spec_tx_step(s, e),
{
    match (s, e) {
        (TxState::Building, TxEvent::BodyOk) => Some(TxState::Executing),
        (TxState::Building, TxEvent::BodyErr) => Some(TxState::Failed),
        (TxState::Executing, TxEvent::ExecOk) => Some(TxState::Committed),
        (TxState::Executing, TxEvent::ExecAborted) => Some(TxState::Retrying),
        (TxState::Executing, TxEvent::ConnErr) => Some(TxState::Failed),
        (TxState::Retrying, TxEvent::Begin) => Some(TxState::Building),
        _ => None,
    }
}

/// Law: a committed or failed attempt is final; no observation moves it.
pub proof fn lemma_tx_terminal(s: TxState, e: TxEvent)
    ensures
        s is Committed || s is Failed ==> spec_tx_step(s, e) is None,
{
}

/// Law: only a pipeline discarded over a changed watched key ever leads
/// to a retry; body errors and connection errors never do.
pub proof fn lemma_tx_retry_only_on_abort(s: TxState, e: TxEvent)
    ensures
        spec_tx_step(s, e) == Some(TxState::Retrying) ==> s is Executing && e is ExecAborted,
{
}

} // verus!
