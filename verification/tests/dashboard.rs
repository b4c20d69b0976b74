use rsahp::dashboard::{already_open, DocumentDto, TreeDto, UserDashboardState};

fn doc(id: i32, owner: i32) -> DocumentDto {
    DocumentDto { id, name: format!("d{id}"), owner_id: owner, version: 1, aggregation_method: "AIJ".to_string(), folder_id: None }
}

#[test]
fn documents_split_into_owned_and_to_evaluate() {
    let mut s = UserDashboardState::default();
    assert!(s.needs_fetch());
    s.begin_fetch();
    assert!(!s.needs_fetch());
    s.apply_fetch(Ok(TreeDto { folders: vec![], documents: vec![doc(1, 7), doc(2, 8), doc(3, 7)] }));
    assert!(!s.fetch_in_progress);
    let (mine, others) = s.split_documents(Some(7));
    assert_eq!(mine, vec![0, 2]);
    assert_eq!(others, vec![1]);
    let (mine0, others0) = s.split_documents(None);
    assert!(mine0.is_empty());
    assert_eq!(others0, vec![0, 1, 2]);
}

#[test]
fn fetch_errors_and_refresh() {
    let mut s = UserDashboardState::default();
    s.begin_fetch();
    s.apply_fetch(Err("HTTP 500".to_string()));
    assert_eq!(s.error_msg.as_deref(), Some("HTTP 500"));
    assert!(!s.needs_fetch());
    s.refresh();
    assert!(s.needs_fetch());
    assert!(s.documents.is_empty());
}

#[test]
fn already_open_checks_ids() {
    assert!(already_open(&vec![4, 5], 5));
    assert!(!already_open(&vec![4, 5], 6));
}
