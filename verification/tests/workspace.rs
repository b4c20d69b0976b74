use rsahp::config::client::AppConfig;
use rsahp::document::{DocumentModel, DocumentState};
use rsahp::explorer::Node;
use rsahp::workspace::RsahpApp;

type App = RsahpApp<f64, f64>;

#[test]
fn test_app_renders_headless() {
    let mut config = AppConfig::default();
    config.api_url = Some("http://127.0.0.1:4002/api/documents".to_string());
    let app: App = RsahpApp::new(config);
    assert!(!app.shows_workspace());
    assert_eq!(app.api_url(), "http://127.0.0.1:4002/api/documents");
    assert!(app.open_documents.is_empty());
    assert!(true);
}

#[test]
fn default_addresses() {
    let app: App = RsahpApp::new(AppConfig::default());
    assert_eq!(app.api_url(), "http://127.0.0.1:4002/api/documents");
    assert_eq!(app.admin_api_url(), "http://localhost:8000/api");
}

#[test]
fn panels_follow_the_role() {
    let mut app: App = RsahpApp::new(AppConfig::default());
    app.auth_state.jwt_token = Some("t".to_string());
    assert!(app.shows_workspace());
    assert!(!app.select_panel());
    assert!(!app.admin_state.is_open);
    app.auth_state.is_admin = true;
    assert!(app.select_panel());
    assert!(app.admin_state.is_open);
}

#[test]
fn windows_close_and_open_once() {
    let mut app: App = RsahpApp::new(AppConfig::default());
    app.open_document(1, "a");
    app.open_document(2, "b");
    app.open_document(1, "a again");
    app.open_task();
    assert_eq!(app.open_documents.len(), 3);
    assert_eq!(app.open_documents[2].id, 101);
    assert!(!app.show_task_list);
    app.close_documents(&vec![0, 2]);
    let ids: Vec<i32> = app.open_documents.iter().map(|d| d.id).collect();
    assert_eq!(ids, vec![2]);
}

#[test]
fn a_copy_adds_a_file_and_retitles_the_window() {
    let mut app: App = RsahpApp::new(AppConfig::default());
    app.open_documents.push(DocumentState::new(1, "Plan"));
    let copy = DocumentModel {
        id: 40,
        name: "Plan (v2)".to_string(),
        owner_id: 1,
        version: 2,
        aggregation_method: "AIJ".to_string(),
        created_at: "t".to_string(),
        folder_id: None,
    };
    app.apply_duplicate(0, &copy);
    assert_eq!(app.open_documents[0].id, 40);
    assert_eq!(app.explorer_state.next_id, 4);
    match &app.explorer_state.tree {
        Node::Directory(d) => match &d.children[0] {
            Node::File(f) => {
                assert_eq!(f.id, 3);
                assert_eq!(f.document_id, Some(40));
            }
            _ => panic!("expected a file"),
        },
        _ => panic!("expected the root"),
    }
}
