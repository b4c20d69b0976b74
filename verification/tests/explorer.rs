use rsahp::criteria::DirPosition;
use rsahp::dashboard::DocumentDto;
use rsahp::explorer::{
    build_node, explorer_tree_fits, find_doc, folder_tree_is_finite, tree_url, update_doc_id, Directory,
    ExplorerRequest, ExplorerState, File, FolderModel, ModalAction, Node,
};

fn folder(id: i32, name: &str, parent: Option<i32>) -> FolderModel {
    FolderModel { id, name: name.to_string(), parent_folder_id: parent }
}

fn doc(id: i32, name: &str, folder: Option<i32>) -> DocumentDto {
    DocumentDto { id, name: name.to_string(), owner_id: 1, version: 1, aggregation_method: "AIJ".to_string(), folder_id: folder }
}

fn dir(n: &Node) -> &Directory {
    match n {
        Node::Directory(d) => d,
        Node::File(_) => panic!("expected a directory"),
    }
}

fn file(n: &Node) -> &File {
    match n {
        Node::File(f) => f,
        Node::Directory(_) => panic!("expected a file"),
    }
}

#[test]
fn build_node_places_folders_then_documents() {
    let folders = vec![folder(10, "Projects", None), folder(11, "Old", Some(10))];
    let docs = vec![doc(1, "Top doc", None), doc(2, "Inner", Some(11)), doc(3, "Mid", Some(10))];
    let mut next = 3;
    assert!(folder_tree_is_finite(&folders, None));
    assert!(explorer_tree_fits(&folders, &docs, None, next));
    let nodes = build_node(&folders, &docs, None, &mut next);
    assert_eq!(nodes.len(), 2);
    let projects = dir(&nodes[0]);
    assert_eq!((projects.id, projects.name.as_str()), (10, "Projects"));
    let old = dir(&projects.children[0]);
    assert_eq!(old.id, 11);
    // folder 10 moves the counter to 11, folder 11 to 12; documents then take 12, 13, 14
    assert_eq!(file(&old.children[0]).id, 12);
    assert_eq!(file(&old.children[0]).document_id, Some(2));
    assert_eq!(file(&projects.children[1]).id, 13);
    assert_eq!(file(&nodes[1]).id, 14);
    assert_eq!(file(&nodes[1]).name, "Top doc");
    assert_eq!(next, 15);
}

#[test]
fn cyclic_folders_are_detected() {
    let folders = vec![folder(1, "A", Some(2)), folder(2, "B", Some(1)), folder(3, "C", None)];
    assert!(folder_tree_is_finite(&folders, None));
    assert!(!folder_tree_is_finite(&folders, Some(1)));
}

#[test]
fn state_starts_with_an_empty_root() {
    let s = ExplorerState::default();
    assert_eq!(s.next_id, 3);
    let root = dir(&s.tree);
    assert_eq!((root.id, root.name.as_str(), root.children.len()), (0, "My AHP Documents", 0));
}

#[test]
fn apply_tree_and_created_document() {
    let mut s = ExplorerState::default();
    s.apply_tree(&vec![folder(4, "F", None)], &vec![doc(9, "D", None)]);
    let root = dir(&s.tree);
    assert_eq!(root.children.len(), 2);
    assert_eq!(s.next_id, 6);
    let fid = file(&root.children[1]).id;
    s.apply_created(fid, &doc(77, "D", None));
    assert_eq!(find_doc(&s.tree, fid), Some((77, "D".to_string())));
}

#[test]
fn adding_a_file_sends_the_creation_request() {
    let mut s = ExplorerState::default();
    s.open_modal(ModalAction::AddFile(0, DirPosition::Last));
    s.modal_state.as_mut().unwrap().input_name = "  My doc ".to_string();
    let req = s.modal_step("http://h/api/documents/", true, true, false);
    match req {
        Some(ExplorerRequest::CreateDocument { ui_id, url, body }) => {
            assert_eq!(ui_id, 3);
            assert_eq!(url, "http://h/api/documents");
            assert_eq!(body, "{\"name\":\"My doc\",\"owner_id\":1,\"aggregation_method\":\"AIJ\",\"folder_id\":null}");
        }
        _ => panic!("expected a creation request"),
    }
    assert_eq!(s.next_id, 4);
    assert!(s.modal_state.is_none());
    assert_eq!(file(&dir(&s.tree).children[0]).name, "My doc");
}

#[test]
fn adding_a_folder_inside_a_folder() {
    let mut s = ExplorerState::default();
    s.apply_tree(&vec![folder(4, "F", None)], &vec![]);
    s.open_modal(ModalAction::AddDir(4, DirPosition::First));
    s.modal_state.as_mut().unwrap().input_name = "Sub".to_string();
    match s.modal_step("http://h/api/documents", true, true, false) {
        Some(ExplorerRequest::CreateFolder { url, body }) => {
            assert_eq!(url, "http://h/api/documents/folders");
            assert_eq!(body, "{\"name\":\"Sub\",\"owner_id\":1,\"parent_folder_id\":4}");
        }
        _ => panic!("expected a folder request"),
    }
    let f = dir(&dir(&s.tree).children[0]);
    assert_eq!(dir(&f.children[0]).name, "Sub");
}

#[test]
fn blank_names_keep_the_dialog_and_cancel_closes_it() {
    let mut s = ExplorerState::default();
    s.open_modal(ModalAction::AddFile(0, DirPosition::Last));
    s.modal_state.as_mut().unwrap().input_name = "   ".to_string();
    assert!(s.modal_step("u", true, true, false).is_none());
    assert!(s.modal_state.is_some());
    assert!(s.modal_step("u", false, true, true).is_none());
    assert!(s.modal_state.is_none());
    assert_eq!(s.next_id, 3);
}

#[test]
fn deleting_and_moving_nodes() {
    let mut s = ExplorerState::default();
    s.apply_tree(&vec![folder(4, "F", None)], &vec![doc(9, "D", None), doc(8, "E", Some(4))]);
    // tree: F(4)[E(5)], D(6)
    let d_id = file(&dir(&s.tree).children[1]).id;
    match s.move_node("http://h/api/documents/", d_id, 4, DirPosition::Last) {
        Some(ExplorerRequest::MoveDocument { url, body }) => {
            assert_eq!(url, "http://h/api/documents/9/move");
            assert_eq!(body, "{\"folder_id\":4}");
        }
        _ => panic!("expected a move request"),
    }
    assert_eq!(dir(&dir(&s.tree).children[0]).children.len(), 2);
    match s.move_node("http://h/api/documents", 4, 0, DirPosition::First) {
        Some(ExplorerRequest::UpdateFolder { url, body }) => {
            assert_eq!(url, "http://h/api/documents/folders/4");
            assert_eq!(body, "{\"name\":\"F\",\"owner_id\":1,\"parent_folder_id\":null}");
        }
        _ => panic!("expected a folder update"),
    }
    assert!(s.move_node("u", 999, 0, DirPosition::Last).is_none());
    s.open_modal(ModalAction::ConfirmDelete(4));
    assert!(s.modal_step("u", true, true, false).is_none());
    assert!(dir(&s.tree).children.is_empty());
}

#[test]
fn update_and_find_documents() {
    let mut tree = Node::Directory(Directory {
        id: 0,
        name: "r".to_string(),
        children: vec![Node::File(File { id: 5, name: "x".to_string(), document_id: None })],
    });
    assert_eq!(find_doc(&tree, 5), None);
    update_doc_id(&mut tree, 5, 31);
    assert_eq!(find_doc(&tree, 5), Some((31, "x".to_string())));
    assert_eq!(tree.id(), 0);
    assert_eq!(tree.name(), "r");
    assert_eq!(tree_url("http://h/api/documents/"), "http://h/api/documents/tree");
}

fn count(n: &Node) -> usize {
    match n {
        Node::File(_) => 1,
        Node::Directory(d) => 1 + d.children.iter().map(count).sum::<usize>(),
    }
}

#[test]
fn moving_keeps_every_node() {
    let mut s = ExplorerState::default();
    s.apply_tree(
        &vec![folder(4, "F", None), folder(5, "G", Some(4)), folder(6, "H", None)],
        &vec![doc(9, "D", None), doc(8, "E", Some(5)), doc(7, "K", Some(6))],
    );
    let before = count(&s.tree);
    assert_eq!(before, 7);
    s.move_node("u", 5, 6, DirPosition::First);
    assert_eq!(count(&s.tree), before);
    s.move_node("u", 6, 4, DirPosition::Last);
    assert_eq!(count(&s.tree), before);
    let f = dir(&dir(&s.tree).children[0]);
    assert_eq!(f.id, 4);
    let h = dir(&f.children[0]);
    assert_eq!((h.id, dir(&h.children[0]).id), (6, 5));
}

#[test]
fn removing_a_placed_node_gives_the_tree_back() {
    let mut s = ExplorerState::default();
    s.apply_tree(&vec![folder(4, "F", None), folder(5, "G", Some(4))], &vec![doc(9, "D", None)]);
    let before = count(&s.tree);
    s.open_modal(ModalAction::AddDir(5, DirPosition::Last));
    s.modal_state.as_mut().unwrap().input_name = "New".to_string();
    s.modal_step("u", true, true, false);
    assert_eq!(count(&s.tree), before + 1);
    let new_id = s.next_id - 1;
    s.open_modal(ModalAction::ConfirmDelete(new_id));
    s.modal_step("u", true, true, false);
    assert_eq!(count(&s.tree), before);
    let f = dir(&dir(&s.tree).children[0]);
    assert_eq!(dir(&f.children[0]).children.len(), 0);
}
