//! The decisions of the language server: which requests and notifications it
//! serves.

use vstd::prelude::*;

use crate::text::text_eq;

verus! {

/// What the server does with a request.
#[derive(Clone, Copy, Debug, PartialEq, Eq)]
pub enum RequestAction {
    /// `textDocument/documentLink`: answer with the document's links.
    DocumentLinks,
    /// Any other method: answer "method not found".
    MethodNotFound,
}

/// What the server does with a notification.
#[derive(Clone, Copy, Debug, PartialEq, Eq)]
pub enum NotificationAction {
    /// `workspace/didChangeWorkspaceFolders`: record the change in the log.
    LogWorkspaceFolders,
    /// `workspace/didChangeWatchedFiles`: search the workspace for tags again.
    Rescan,
    /// Any other method: nothing but a debug message.
    Ignore,
}

/// The action for a request method.
pub open spec fn request_action(method: Seq<char>) -> RequestAction {
    if method == "textDocument/documentLink"@ {
        RequestAction::DocumentLinks
    } else {
        RequestAction::MethodNotFound
    }
}

/// The action for a notification method.
pub open spec fn notification_action(method: Seq<char>) -> NotificationAction {
    if method == "workspace/didChangeWorkspaceFolders"@ {
        NotificationAction::LogWorkspaceFolders
    } else if method == "workspace/didChangeWatchedFiles"@ {
        NotificationAction::Rescan
    } else {
        NotificationAction::Ignore
    }
}

/// Chooses what to do with a request.
pub fn classify_request(method: &str) -> (r: RequestAction)
    ensures
        r == request_action(method@),
{
    if text_eq(method, "textDocument/documentLink") {
        RequestAction::DocumentLinks
    } else {
        RequestAction::MethodNotFound
    }
}

/// Chooses what to do with a notification.
pub fn classify_notification(method: &str) -> (r: NotificationAction)
    ensures
        r == notification_action(method@),
{
    if text_eq(method, "workspace/didChangeWorkspaceFolders") {
        NotificationAction::LogWorkspaceFolders
    } else if text_eq(method, "workspace/didChangeWatchedFiles") {
        NotificationAction::Rescan
    } else {
        NotificationAction::Ignore
    }
}

} // verus!
