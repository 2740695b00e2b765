use crate::diagnostics::{check_diagnostics, check_spec, diag_views, texts_wf, Diagnostic, DiagnosticConfig};
use crate::lsp::{at_path, group_by_path, path_keys};
use crate::resolution::conn::ConnectionGraph;
use vstd::prelude::*;

verus! {

/// What the diagnostics manager is told.
#[derive(Debug)]
pub enum DiagnosticEvent {
    /// The workspace was resolved anew.
    Refresh(ConnectionGraph),
}

/// What wakes the diagnostics manager.
#[derive(Debug)]
pub enum ManagerInput {
    Event(DiagnosticEvent),
    /// The sender is gone.
    Closed,
    /// The quiet period after the last refresh is over.
    DeadlinePassed,
}

/// The manager's memory: the latest graph not yet checked, and whether a quiet period
/// is running.
#[derive(Debug)]
pub struct ManagerState {
    pub pending: Option<ConnectionGraph>,
    pub armed: bool,
}

/// What the manager does next.
#[derive(Debug)]
pub enum ManagerAction {
    /// Start a new quiet period.
    Rearm,
    /// Wait for the next input.
    Wait,
    /// Send these diagnostics, grouped by document.
    Publish(Vec<(String, Vec<Diagnostic>)>),
    Stop,
}

/// One step of the diagnostics manager: a refresh replaces the pending graph and starts a
/// quiet period; when the period is over, the pending graph, if any, is checked and its
/// diagnostics published; a closed channel stops the manager.
pub fn manager_step(state: ManagerState, input: ManagerInput, config: &DiagnosticConfig) -> (r: (
    ManagerState,
    ManagerAction,
))
    requires
        state.pending matches Some(g) ==> texts_wf(g),
        input matches ManagerInput::Event(DiagnosticEvent::Refresh(g)) ==> texts_wf(g),
    ensures
        match input {
            ManagerInput::Event(DiagnosticEvent::Refresh(g)) => r.0.pending == Some(g) && r.0.armed && r.1 is Rearm,
            ManagerInput::Closed => r.1 is Stop,
            ManagerInput::DeadlinePassed => {
                &&& r.0.pending is None
                &&& !r.0.armed
                &&& match state.pending {
                    Some(g) => r.1 matches ManagerAction::Publish(groups) && exists|ds: Seq<Diagnostic>|
                        diag_views(ds) == check_spec(g, *config) && groups@.len() == path_keys(ds).len() && forall|k: int|
                            0 <= k < groups@.len() ==> (#[trigger] groups@[k]).0@ == path_keys(ds)[k] && diag_views(
                                groups@[k].1@,
                            ) == at_path(ds, path_keys(ds)[k]),
                    None => r.1 is Wait,
                }
            },
        },
        r.0.pending matches Some(g) ==> texts_wf(g),
{
    match input {
        ManagerInput::Event(DiagnosticEvent::Refresh(graph)) => {
            (ManagerState { pending: Some(graph), armed: true }, ManagerAction::Rearm)
        },
        ManagerInput::Closed => (state, ManagerAction::Stop),
        ManagerInput::DeadlinePassed => {
            match state.pending {
                Some(graph) => {
                    let diagnostics = check_diagnostics(&graph, config);
                    let groups = group_by_path(&diagnostics);
                    (ManagerState { pending: None, armed: false }, ManagerAction::Publish(groups))
                },
                None => (ManagerState { pending: None, armed: false }, ManagerAction::Wait),
            }
        },
    }
}

} // verus!
