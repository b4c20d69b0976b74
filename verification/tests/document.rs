use rsahp::criteria::{CriteriaNode, DirPosition};
use rsahp::document::{
    add_typed_id, build_tree, document_url, find_parent, is_loadable, request_headers, load_error_reported, node_tree_is_finite, save_succeeded,
    CloseChoice, CloseOutcome, ComparisonModel, CriteriaModalAction, DocumentAssignments, DocumentModel, DocumentState,
    DocumentTab, ExportedDocument, NodeModel, SaatyTable, SortColumn,
};

type Doc = DocumentState<f64, f64>;

fn leaf(id: usize, name: &str, node_type: &str) -> CriteriaNode<f64> {
    CriteriaNode { id, name: name.to_string(), cost: None, node_type: node_type.to_string(), children: vec![] }
}

fn node(id: i32, parent: Option<i32>, name: &str, node_type: &str) -> NodeModel<f64> {
    NodeModel { id, document_id: 1, parent_node_id: parent, name: name.to_string(), node_type: node_type.to_string(), cost: None }
}

fn model(name: &str, version: i32) -> DocumentModel {
    DocumentModel {
        id: 9,
        name: name.to_string(),
        owner_id: 1,
        version,
        aggregation_method: "AIP".to_string(),
        created_at: "t".to_string(),
        folder_id: None,
    }
}

#[test]
fn a_new_window_starts_empty() {
    let d: Doc = DocumentState::new(101, "Vendor Selection Survey");
    assert_eq!(d.id, 101);
    assert_eq!(d.title, "Vendor Selection Survey");
    assert_eq!(d.version, 1);
    assert!(d.active_tab == DocumentTab::Structure);
    assert_eq!(d.aggregation_mode, "AIJ");
    assert_eq!(d.input_mode, "Scrolling");
    assert_eq!(d.criteria.id, 0);
    assert_eq!(d.criteria.name, "ROOT");
    assert_eq!(d.criteria.node_type, "Goal");
    assert_eq!(d.next_id, 1);
    assert!(d.sort_column == SortColumn::ValueScore);
    assert!(d.sort_descending);
    assert!(!d.is_loaded && !d.is_modified);
}

#[test]
fn saaty_table_keeps_one_value_per_pair() {
    let mut t: SaatyTable<f64> = SaatyTable::new();
    t.insert((2, 3), 3.0);
    t.insert((4, 5), 5.0);
    t.insert((2, 3), 7.0);
    assert_eq!(t.len(), 2);
    assert_eq!(t.get((2, 3)), Some(7.0));
    assert_eq!(t.entry(0), ((2, 3), 7.0));
    assert_eq!(t.value_or_insert((4, 5), 1.0), 5.0);
    assert_eq!(t.value_or_insert((6, 7), 1.0), 1.0);
    assert_eq!(t.len(), 3);
    t.clear();
    assert_eq!(t.get((2, 3)), None);
}

#[test]
fn saving_flattens_the_hierarchy_under_the_goal() {
    let mut d: Doc = DocumentState::new(1, "Test Document");
    d.goal = "Test Goal".to_string();
    let mut c1 = leaf(2, "Crit1", "Criteria");
    c1.children.push(leaf(5, "Sub", "Criteria"));
    d.criteria.children = vec![c1, leaf(3, "Crit2", "Criteria")];
    d.saaty_values.insert((2, 3), 3.0);
    d.saaty_values.insert((5, 99), 2.0);
    let export = d.export(1);
    assert_eq!(export.document.id, 1);
    assert_eq!(export.document.name, "Test Document");
    assert_eq!(export.document.owner_id, 1);
    assert_eq!(export.document.created_at, "2026-06-21T00:00:00Z");
    let rows: Vec<(i32, Option<i32>, &str)> = export.nodes.iter().map(|n| (n.id, n.parent_node_id, n.name.as_str())).collect();
    assert_eq!(rows, vec![(0, None, "Test Goal"), (2, Some(0), "Crit1"), (5, Some(2), "Sub"), (3, Some(0), "Crit2")]);
    assert_eq!(export.nodes[0].node_type, "Goal");
    assert_eq!(export.comparisons.len(), 2);
    let c = &export.comparisons[0];
    assert_eq!((c.parent_node_id, c.node_a_id, c.node_b_id, c.saaty_value), (0, 2, 3, 3.0));
    assert_eq!(c.respondent_id, 1);
    assert_eq!(export.comparisons[1].parent_node_id, 2);
}

#[test]
fn an_empty_goal_is_saved_as_goal() {
    let d: Doc = DocumentState::new(1, "x");
    let nodes = d.saved_nodes();
    assert_eq!(nodes.len(), 1);
    assert_eq!(nodes[0].name, "Goal");
}

#[test]
fn find_parent_finds_the_first_holder() {
    let mut a = leaf(1, "A", "Criteria");
    a.children.push(leaf(4, "A1", "Criteria"));
    let root = CriteriaNode { id: 0, name: "r".to_string(), cost: None, node_type: "Goal".to_string(), children: vec![a] };
    assert_eq!(find_parent(&root, 1), Some(0));
    assert_eq!(find_parent(&root, 4), Some(1));
    assert_eq!(find_parent(&root, 0), None);
}

#[test]
fn the_save_cycle_reports_its_result() {
    let mut d: Doc = DocumentState::new(1, "x");
    d.is_modified = true;
    d.begin_save();
    assert_eq!(d.save_status.as_deref(), Some("Saving..."));
    assert!(!d.is_modified);
    d.finish_save(save_succeeded(200, "{\"id\":1}"));
    assert_eq!(d.save_status.as_deref(), Some("✅ Saved!"));
    d.finish_save(save_succeeded(200, "{\"ok\":false}"));
    assert_eq!(d.save_status.as_deref(), Some("❌ Save Failed"));
    assert!(!save_succeeded(404, ""));
    assert!(save_succeeded(299, ""));
    assert!(!save_succeeded(300, ""));
}

#[test]
fn loading_rebuilds_the_hierarchy_and_values() {
    let mut d: Doc = DocumentState::new(9, "old");
    let data = ExportedDocument {
        document: model("Loaded", 4),
        nodes: vec![
            node(3, Some(2), "Sub", "Criteria"),
            node(2, Some(1), "Top", "Criteria"),
            node(1, None, "My goal", "Goal"),
            node(7, Some(1), "Cand", "Alternative"),
        ],
        comparisons: vec![ComparisonModel {
            id: 1,
            document_id: 9,
            respondent_id: 3,
            parent_node_id: 1,
            node_a_id: 2,
            node_b_id: 7,
            saaty_value: 5.0,
        }],
    };
    assert!(is_loadable(&data));
    d.apply_loaded(data);
    assert!(d.is_loaded);
    assert_eq!(d.title, "Loaded");
    assert_eq!(d.version, 4);
    assert_eq!(d.aggregation_mode, "AIP");
    assert_eq!(d.goal, "My goal");
    let top: Vec<usize> = d.criteria.children.iter().map(|c| c.id).collect();
    assert_eq!(top, vec![2, 7]);
    assert_eq!(d.criteria.children[0].children[0].name, "Sub");
    assert_eq!(d.next_id, 8);
    assert_eq!(d.saaty_values.get((2, 7)), Some(5.0));
}

#[test]
fn cyclic_loaded_hierarchies_are_refused() {
    let nodes = vec![node(1, None, "g", "Goal"), node(2, Some(3), "a", "Criteria"), node(3, Some(2), "b", "Criteria")];
    assert!(node_tree_is_finite(&nodes, 1));
    assert!(!node_tree_is_finite(&nodes, 2));
    let data: ExportedDocument<f64, f64> = ExportedDocument { document: model("c", 1), nodes: vec![node(1, None, "g", "Goal"), node(1, Some(1), "self", "Criteria")], comparisons: vec![] };
    assert!(!is_loadable(&data));
    let ok = vec![node(1, None, "g", "Goal"), node(2, Some(1), "a", "Criteria")];
    assert_eq!(build_tree(&ok, 1).len(), 1);
}

#[test]
fn load_errors_for_new_documents_are_hidden() {
    assert!(!load_error_reported("HTTP 404"));
    assert!(!load_error_reported("Not Found"));
    assert!(!load_error_reported("Document not found"));
    assert!(load_error_reported("Network error"));
    let mut d: Doc = DocumentState::new(1, "x");
    d.apply_load_error("Document not found");
    assert!(d.is_loaded);
    assert_eq!(d.save_status, None);
    d.apply_load_error("boom");
    assert_eq!(d.save_status.as_deref(), Some("❌ Load Failed: boom"));
}

#[test]
fn dialogs_edit_the_hierarchy() {
    let mut d: Doc = DocumentState::new(1, "x");
    d.open_modal(CriteriaModalAction::AddChild(0, DirPosition::Last, "Criteria".to_string()), String::new());
    d.modal_state.as_mut().unwrap().input_name = " Price ".to_string();
    d.modal_step(true, true, false, None);
    assert!(d.modal_state.is_none());
    assert!(d.is_modified);
    assert_eq!(d.next_id, 2);
    assert_eq!(d.criteria.children[0].name, "Price");
    assert_eq!(d.criteria.children[0].id, 1);
    assert!(d.open_nodes.contains(&0) && d.open_nodes.contains(&1));

    d.open_modal(CriteriaModalAction::Rename(1, "Criteria".to_string()), String::new());
    assert_eq!(d.modal_state.as_ref().unwrap().input_name, "Price");
    d.modal_state.as_mut().unwrap().input_name = "Cost".to_string();
    d.modal_step(true, true, false, None);
    assert_eq!(d.criteria.children[0].name, "Cost");

    d.open_modal(CriteriaModalAction::EditCost(1, "Criteria".to_string()), "12.5".to_string());
    assert_eq!(d.modal_state.as_ref().unwrap().input_name, "12.5");
    d.modal_step(true, true, false, Some(12.5));
    assert_eq!(d.criteria.children[0].cost, Some(12.5));

    d.open_modal(CriteriaModalAction::EditCost(1, "Criteria".to_string()), "abc".to_string());
    d.modal_step(true, true, false, None);
    assert!(d.modal_state.is_some());
    assert_eq!(d.criteria.children[0].cost, Some(12.5));
    d.modal_state.as_mut().unwrap().input_name = "  ".to_string();
    d.modal_step(true, true, false, None);
    assert_eq!(d.criteria.children[0].cost, None);

    d.open_modal(CriteriaModalAction::ConfirmDelete(1, "Criteria".to_string()), String::new());
    d.modal_step(true, true, false, None);
    assert!(d.criteria.children.is_empty());
}

#[test]
fn blank_names_are_refused_and_escape_closes() {
    let mut d: Doc = DocumentState::new(1, "x");
    d.open_modal(CriteriaModalAction::AddChild(0, DirPosition::Last, "Alternative".to_string()), String::new());
    d.modal_step(true, true, false, None);
    assert!(d.modal_state.is_some());
    assert_eq!(d.next_id, 1);
    d.modal_step(false, true, true, None);
    assert!(d.modal_state.is_none());
    assert!(!d.is_modified);
}

#[test]
fn toggling_nodes_open() {
    let mut d: Doc = DocumentState::new(1, "x");
    d.toggle_open(4);
    assert!(d.open_nodes.contains(&4));
    d.toggle_open(4);
    assert!(!d.open_nodes.contains(&4));
}

#[test]
fn assignments_add_once_and_remove_all() {
    let mut a = DocumentAssignments { user_ids: vec![1, 2, 1], group_ids: vec![] };
    a.add_user(2);
    assert_eq!(a.user_ids, vec![1, 2, 1]);
    a.add_user(3);
    assert_eq!(a.user_ids, vec![1, 2, 1, 3]);
    a.remove_user(1);
    assert_eq!(a.user_ids, vec![2, 3]);
    a.add_group(7);
    a.add_group(7);
    assert_eq!(a.group_ids, vec![7]);
    a.remove_group(7);
    assert!(a.group_ids.is_empty());
    let mut typed = "42".to_string();
    let mut ids = vec![1];
    add_typed_id(&mut ids, &mut typed);
    assert_eq!(ids, vec![1, 42]);
    assert_eq!(typed, "");
    let mut bad = "4x".to_string();
    add_typed_id(&mut ids, &mut bad);
    assert_eq!(ids, vec![1, 42]);
    assert_eq!(bad, "4x");
}

#[test]
fn copies_and_closing() {
    let mut d: Doc = DocumentState::new(1, "Plan");
    d.begin_duplicate();
    assert_eq!(d.save_status.as_deref(), Some("Duplicating..."));
    d.apply_duplicate(&model("Plan (v2)", 2));
    assert_eq!(d.id, 9);
    assert_eq!(d.title, "Plan (v2)");
    assert_eq!(d.save_status.as_deref(), Some("✅ Duplicated! (v2)"));
    assert!(d.close_clicked());
    d.is_modified = true;
    assert!(!d.close_clicked());
    assert!(d.close_requested);
    assert_eq!(d.resolve_close(CloseChoice::Cancel), CloseOutcome::Stay);
    assert!(!d.close_requested);
    assert_eq!(d.resolve_close(CloseChoice::Save), CloseOutcome::SaveAndClose);
    assert_eq!(d.resolve_close(CloseChoice::Discard), CloseOutcome::Close);
}

#[test]
fn wizard_steps_and_assignment_replies() {
    let mut d: Doc = DocumentState::new(1, "x");
    d.wizard_next(3);
    d.wizard_next(3);
    assert_eq!(d.wizard_step, 2);
    d.wizard_previous();
    assert_eq!(d.wizard_step, 1);
    d.assignments_pending = true;
    d.apply_assignments(Err("Error: 500".to_string()));
    assert!(d.assignments.is_none() && !d.assignments_pending);
    d.apply_assignments(Ok(DocumentAssignments { user_ids: vec![5], group_ids: vec![6] }));
    assert_eq!(d.assignments.as_ref().unwrap().user_ids, vec![5]);
}

fn shape(n: &CriteriaNode<f64>) -> String {
    let kids: Vec<String> = n.children.iter().map(shape).collect();
    format!("{}:{}:{}[{}]", n.id, n.name, n.node_type, kids.join(","))
}

#[test]
fn a_saved_document_loads_back_unchanged() {
    let mut d: Doc = DocumentState::new(4, "Round trip");
    d.goal = "Pick a vendor".to_string();
    let mut c1 = leaf(2, "Price", "Criteria");
    c1.children.push(leaf(5, "Upfront", "Criteria"));
    c1.children.push(leaf(6, "Running", "Criteria"));
    d.criteria.children = vec![c1, leaf(3, "Quality", "Criteria"), leaf(7, "Acme", "Alternative")];
    d.saaty_values.insert((2, 3), 3.0);
    d.saaty_values.insert((5, 6), 0.5);
    d.saaty_values.insert((2, 3), 4.0);
    let export = d.export(1);
    let mut back: Doc = DocumentState::new(4, "");
    assert!(is_loadable(&export));
    back.apply_loaded(export);
    assert_eq!(back.goal, "Pick a vendor");
    let saved: Vec<String> = d.criteria.children.iter().map(shape).collect();
    let loaded: Vec<String> = back.criteria.children.iter().map(shape).collect();
    assert_eq!(saved, loaded);
    assert_eq!(back.saaty_values.len(), 2);
    assert_eq!(back.saaty_values.get((2, 3)), Some(4.0));
    assert_eq!(back.saaty_values.get((5, 6)), Some(0.5));
    assert_eq!(back.next_id, 8);
}

#[test]
fn saving_posts_the_document_with_the_signed_in_user_as_respondent() {
    let mut d: Doc = DocumentState::new(1, "Test Document");
    d.goal = "Test Goal".to_string();
    d.criteria.children = vec![leaf(2, "Crit1", "Criteria"), leaf(3, "Crit2", "Criteria")];
    d.saaty_values.insert((2, 3), 3.0);
    d.is_modified = true;
    let req = d.save_request("http://127.0.0.1:4002/api/documents", Some("fake_token_for_test"), 1);
    assert_eq!(req.url, "http://127.0.0.1:4002/api/documents/1/full");
    assert_eq!(
        req.headers,
        vec![
            ("Authorization".to_string(), "Bearer fake_token_for_test".to_string()),
            ("Content-Type".to_string(), "application/json".to_string()),
        ]
    );
    assert_eq!(req.body.comparisons.len(), 1);
    let c = &req.body.comparisons[0];
    assert_eq!((c.node_a_id, c.node_b_id, c.respondent_id, c.saaty_value), (2, 3, 1, 3.0));
    assert_eq!(req.body.nodes.len(), 3);
    assert_eq!(d.save_status.as_deref(), Some("Saving..."));
    assert!(!d.is_modified && d.save_pending);
}

#[test]
fn document_requests_have_their_addresses_and_headers() {
    assert_eq!(document_url("http://h/api/documents", 7, "export"), "http://h/api/documents/7/export");
    assert_eq!(document_url("http://h/api/documents", 7, "duplicate"), "http://h/api/documents/7/duplicate");
    assert_eq!(document_url("http://h/api/documents", -2, "assignments"), "http://h/api/documents/-2/assignments");
    assert_eq!(request_headers(None, false), vec![]);
    assert_eq!(request_headers(None, true), vec![("Content-Type".to_string(), "application/json".to_string())]);
    assert_eq!(request_headers(Some("t"), false), vec![("Authorization".to_string(), "Bearer t".to_string())]);
}
