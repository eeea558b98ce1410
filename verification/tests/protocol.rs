use traversal_core::protocol::{classify_notification, classify_request, NotificationAction, RequestAction};

#[test]
fn document_link_requests_are_served() {
    assert_eq!(classify_request("textDocument/documentLink"), RequestAction::DocumentLinks);
    assert_eq!(classify_request("textDocument/hover"), RequestAction::MethodNotFound);
    assert_eq!(classify_request("textDocument/documentLink2"), RequestAction::MethodNotFound);
    assert_eq!(classify_request(""), RequestAction::MethodNotFound);
}

#[test]
fn notifications_are_classified() {
    assert_eq!(
        classify_notification("workspace/didChangeWorkspaceFolders"),
        NotificationAction::LogWorkspaceFolders
    );
    assert_eq!(classify_notification("workspace/didChangeWatchedFiles"), NotificationAction::Rescan);
    assert_eq!(classify_notification("textDocument/didOpen"), NotificationAction::Ignore);
}
